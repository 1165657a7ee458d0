use ix_match::collection::IIQCollection;
use ix_match::entity::{abs_diff_millis, FileInfo, IIQFile};
use ix_match::join::JoinedIIQCollection;
use ix_match::number::parse_duration_millis;
use ix_match::plan::plan_matches;
use ix_match::timestamp::{parse_timestamp, Timestamp};
use ix_match::MatchError;

fn info(dir: &str, name: &str, bytes: u64) -> FileInfo {
    let stem = name.strip_suffix(".iiq").unwrap_or(name);
    FileInfo {
        path: format!("{}/{}", dir, name),
        name: name.to_string(),
        stem: stem.to_string(),
        bytes,
    }
}

fn build(dir: &str, names: &[(&str, u64)]) -> IIQCollection {
    let infos: Vec<FileInfo> = names.iter().map(|(n, b)| info(dir, n, *b)).collect();
    IIQCollection::new(&infos).unwrap()
}

#[test]
fn timestamp_text_round_trip() {
    for text in ["210101_120000000", "991231_235959999", "000229_000000001", "690615_081530250"] {
        let t = parse_timestamp(text).unwrap();
        assert_eq!(t.format(), text);
    }
}

#[test]
fn timestamp_value_round_trip() {
    let t = parse_timestamp("240229_235959999").unwrap();
    assert_eq!((t.year, t.month, t.day), (2024, 2, 29));
    let again = parse_timestamp(&t.format()).unwrap();
    assert_eq!(again, t);
}

#[test]
fn timestamp_two_digit_years() {
    assert_eq!(parse_timestamp("690101_000000000").unwrap().year, 2069);
    assert_eq!(parse_timestamp("700101_000000000").unwrap().year, 1970);
    assert_eq!(parse_timestamp("700101_000000000").unwrap().instant, 0);
}

#[test]
fn timestamp_rejects_bad_text() {
    assert_eq!(parse_timestamp("210132_120000000"), None);
    assert_eq!(parse_timestamp("210229_120000000"), None);
    assert_eq!(parse_timestamp("211301_120000000"), None);
    assert_eq!(parse_timestamp("210101_240000000"), None);
    assert_eq!(parse_timestamp("210101_120000"), None);
    assert_eq!(parse_timestamp("210101_1200000000"), None);
    assert_eq!(parse_timestamp("abcdef_ghijklmno"), None);
}

#[test]
fn timestamp_format_writes_fields() {
    let t = Timestamp {
        year: 2005,
        month: 3,
        day: 7,
        hour: 9,
        minute: 5,
        second: 1,
        milli: 42,
        instant: 0,
    };
    assert_eq!(t.format(), "050307_090501042");
}

#[test]
fn file_with_short_stem_is_rejected() {
    assert_eq!(IIQFile::new(&info("d", "210101_12000.iiq", 7)).err(), Some(MatchError::Parse));
}

#[test]
fn file_keeps_text_after_timestamp() {
    let f = IIQFile::new(&info("d", "210101_120000000_extra.iiq", 3)).unwrap();
    assert_eq!(f.stem(), "210101_120000000_extra");
    assert_eq!(f.datetime().hour, 12);
}

#[test]
fn collection_fails_on_any_bad_name() {
    let infos = vec![info("d", "210101_120000000.iiq", 7), info("d", "not_a_timestamp.iiq", 7)];
    assert_eq!(IIQCollection::new(&infos).err(), Some(MatchError::Parse));
}

#[test]
fn collection_sorts_any_input_order() {
    let c = build(
        "d",
        &[("210101_120002000.iiq", 1), ("210101_120000000.iiq", 1), ("210101_120001000.iiq", 1)],
    );
    assert_eq!(
        c.paths(),
        vec![
            "d/210101_120000000.iiq".to_string(),
            "d/210101_120001000.iiq".to_string(),
            "d/210101_120002000.iiq".to_string()
        ]
    );
}

#[test]
fn collection_sort_is_stable() {
    let c = build("d", &[("210101_120000000_b.iiq", 1), ("210101_110000000.iiq", 1), ("210101_120000000_a.iiq", 1)]);
    assert_eq!(c.get(1).name(), "210101_120000000_b.iiq");
    assert_eq!(c.get(2).name(), "210101_120000000_a.iiq");
}

#[test]
fn nearest_prefers_earlier_on_ties() {
    let c = build("d", &[("210101_120000000.iiq", 1), ("210101_120001000.iiq", 1)]);
    let t = parse_timestamp("210101_120000500").unwrap();
    assert_eq!(c.closest_index(t.instant), Ok(0));
    let t = parse_timestamp("210101_120000501").unwrap();
    assert_eq!(c.closest_index(t.instant), Ok(1));
}

#[test]
fn nearest_finds_exact_and_outside_times() {
    let c = build(
        "d",
        &[("210101_120000000.iiq", 1), ("210101_120001000.iiq", 1), ("210101_120002000.iiq", 1), ("210101_120003000.iiq", 1)],
    );
    assert_eq!(c.closest_index(parse_timestamp("210101_120002000").unwrap().instant), Ok(2));
    assert_eq!(c.closest_index(parse_timestamp("210101_110000000").unwrap().instant), Ok(0));
    assert_eq!(c.closest_index(parse_timestamp("210101_130000000").unwrap().instant), Ok(3));
    assert_eq!(c.closest_index(parse_timestamp("210101_120001400").unwrap().instant), Ok(1));
}

#[test]
fn nearest_on_empty_collection_fails() {
    let c = IIQCollection::from(Vec::new());
    assert_eq!(c.closest_index(0), Err(MatchError::EmptyCollection));
}

#[test]
fn partition_splits_empty_files() {
    let mut c = build(
        "d",
        &[("210101_120000000.iiq", 0), ("210101_120001000.iiq", 5), ("210101_120002000.iiq", 0), ("210101_120003000.iiq", 9)],
    );
    assert_eq!(c.empty_files_len(), 2);
    let empty = c.pop_empty_files();
    assert_eq!(
        empty.paths(),
        vec!["d/210101_120000000.iiq".to_string(), "d/210101_120002000.iiq".to_string()]
    );
    assert_eq!(
        c.paths(),
        vec!["d/210101_120001000.iiq".to_string(), "d/210101_120003000.iiq".to_string()]
    );
    assert_eq!(c.empty_files_len(), 0);
}

#[test]
fn threshold_is_inclusive() {
    let rgb = build("rgb", &[("210101_120000000.iiq", 7)]);
    let nir = build("nir", &[("210101_120000200.iiq", 7)]);
    let joined = JoinedIIQCollection::new(&rgb, &nir).unwrap();
    assert_eq!(joined.get_matched(200).len(), 1);
    assert_eq!(joined.get_unmatched(200).len(), 0);
    assert_eq!(joined.get_matched(199).len(), 0);
    assert_eq!(joined.get_unmatched(199).len(), 1);
}

#[test]
fn every_target_file_has_one_row() {
    let rgb = build("rgb", &[("210101_120000000.iiq", 7), ("210101_120000050.iiq", 7)]);
    let nir = build(
        "nir",
        &[("210101_120000010.iiq", 7), ("210101_120000020.iiq", 7), ("210101_120000030.iiq", 7)],
    );
    let joined = JoinedIIQCollection::new(&rgb, &nir).unwrap();
    let rows = joined.joined();
    assert_eq!(rows.len(), 3);
    for (i, row) in rows.iter().enumerate() {
        assert_eq!(row.1, Some(i));
    }
    assert_eq!(rows[0], (Some(0), Some(0), 10));
    assert_eq!(rows[1], (None, Some(1), u64::MAX));
    assert_eq!(rows[2], (Some(1), Some(2), 20));
}

#[test]
fn scenario_two_pairs_match() {
    let rgb = build("rgb", &[("210101_120000000.iiq", 7), ("210101_120001000.iiq", 7)]);
    let nir = build("nir", &[("210101_120000100.iiq", 7), ("210101_120001100.iiq", 7)]);
    let joined = JoinedIIQCollection::new(&rgb, &nir).unwrap();
    let rows = joined.joined();
    assert_eq!(rows[0], (Some(0), Some(0), 100));
    assert_eq!(rows[1], (Some(1), Some(1), 100));
    let matched = joined.get_matched(200);
    assert_eq!(matched.len(), 2);
    assert_eq!(matched[0].0.name(), "210101_120000000.iiq");
    assert_eq!(matched[0].1.name(), "210101_120000100.iiq");
    assert_eq!(joined.get_matched_rgb(200).len(), 2);
    assert_eq!(joined.get_matched_nir(200).len(), 2);
}

#[test]
fn scenario_unclaimed_target_is_unmatched() {
    let rgb = build("rgb", &[("210101_120000000.iiq", 7)]);
    let nir = build("nir", &[("210101_120000100.iiq", 7), ("210101_120005000.iiq", 7)]);
    let joined = JoinedIIQCollection::new(&rgb, &nir).unwrap();
    assert_eq!(joined.joined()[0], (Some(0), Some(0), 100));
    assert_eq!(joined.joined()[1], (None, Some(1), u64::MAX));
    let unmatched = joined.get_unmatched(200);
    assert_eq!(unmatched.len(), 1);
    assert!(unmatched[0].0.is_none());
    assert_eq!(unmatched[0].1.as_ref().unwrap().name(), "210101_120005000.iiq");
    assert_eq!(joined.get_unmatched_rgb(200).len(), 0);
    assert_eq!(joined.get_unmatched_nir(200).paths(), vec!["nir/210101_120005000.iiq".to_string()]);
}

#[test]
fn scenario_empty_file_set_aside() {
    let rgb = build("rgb", &[("210101_120000000.iiq", 7), ("210101_130000000.iiq", 0)]);
    let nir = build("nir", &[("210101_120000100.iiq", 7)]);
    let plan = plan_matches(rgb, nir, 200, false).unwrap();
    assert_eq!(plan.empty_rgb_count, 1);
    assert_eq!(plan.empty_nir_count, 0);
    assert_eq!(plan.rgb_count, 2);
    assert_eq!(plan.matched_count, 1);
    assert_eq!(plan.matched_rgb.paths(), vec!["rgb/210101_120000000.iiq".to_string()]);
    assert_eq!(plan.unmatched_rgb.len(), 0);
}

#[test]
fn scenario_empty_channel_fails() {
    let rgb = IIQCollection::from(Vec::new());
    let nir = build("nir", &[("210101_120000100.iiq", 7)]);
    assert_eq!(JoinedIIQCollection::new(&rgb, &nir).err(), Some(MatchError::EmptyCollection));
    assert_eq!(JoinedIIQCollection::new(&nir, &rgb).err(), Some(MatchError::EmptyCollection));
    let rgb = IIQCollection::from(Vec::new());
    let nir = build("nir", &[("210101_120000100.iiq", 7)]);
    assert_eq!(plan_matches(rgb, nir, 200, true).err(), Some(MatchError::EmptyCollection));
}

#[test]
fn both_channels_empty_give_no_rows() {
    let a = IIQCollection::from(Vec::new());
    let b = IIQCollection::from(Vec::new());
    assert_eq!(JoinedIIQCollection::new(&a, &b).unwrap().len(), 0);
}

#[test]
fn only_empty_files_left_fails_the_plan() {
    let rgb = build("rgb", &[("210101_120000000.iiq", 0)]);
    let nir = build("nir", &[("210101_120000100.iiq", 7)]);
    assert_eq!(plan_matches(rgb, nir, 200, false).err(), Some(MatchError::EmptyCollection));
}

#[test]
fn scenario_identical_timestamps() {
    let rgb = build("rgb", &[("210101_120000000_a.iiq", 7), ("210101_120000000_b.iiq", 7)]);
    let nir = build("nir", &[("210101_120000000.iiq", 7)]);
    let joined = JoinedIIQCollection::new(&rgb, &nir).unwrap();
    let rows = joined.joined();
    assert_eq!(rows.len(), 2);
    let claimed: Vec<_> = rows.iter().filter(|r| r.1.is_some()).collect();
    assert_eq!(claimed.len(), 1);
    assert_eq!(claimed[0].2, 0);
    assert_eq!(joined.get_matched(0).len(), 1);
    assert_eq!(joined.get_unmatched_rgb(0).len(), 1);
}

#[test]
fn equal_lengths_drive_from_second_channel() {
    let rgb = build("rgb", &[("210101_120000000.iiq", 7), ("210101_120001000.iiq", 7)]);
    let nir = build("nir", &[("210101_120000100.iiq", 7), ("210101_120005000.iiq", 7)]);
    let joined = JoinedIIQCollection::new(&rgb, &nir).unwrap();
    assert_eq!(joined.joined()[0], (Some(0), Some(0), 100));
    assert_eq!(joined.joined()[1], (Some(1), Some(1), 4000));
}

#[test]
fn later_driver_does_not_take_a_tied_claim() {
    let rgb = build("rgb", &[("210101_120000000.iiq", 7), ("210101_120000200.iiq", 7)]);
    let nir = build(
        "nir",
        &[("210101_120000100.iiq", 7), ("210101_120009000.iiq", 7), ("210101_120010000.iiq", 7)],
    );
    let joined = JoinedIIQCollection::new(&rgb, &nir).unwrap();
    assert_eq!(joined.joined()[0], (Some(0), Some(0), 100));
}

#[test]
fn abs_diff_is_symmetric_and_exact() {
    assert_eq!(abs_diff_millis(5, 12), 7);
    assert_eq!(abs_diff_millis(12, 5), 7);
    assert_eq!(abs_diff_millis(i64::MAX, i64::MIN), u64::MAX);
}

#[test]
fn duration_text_is_parsed() {
    assert_eq!(parse_duration_millis("500"), Ok(500));
    assert_eq!(parse_duration_millis("+7"), Ok(7));
    assert_eq!(parse_duration_millis("0"), Ok(0));
    assert_eq!(parse_duration_millis("18446744073709551615"), Ok(u64::MAX));
}

#[test]
fn duration_text_errors() {
    assert_eq!(parse_duration_millis(""), Err(MatchError::InvalidNumber));
    assert_eq!(parse_duration_millis("+"), Err(MatchError::InvalidNumber));
    assert_eq!(parse_duration_millis("-5"), Err(MatchError::InvalidNumber));
    assert_eq!(parse_duration_millis("12a"), Err(MatchError::InvalidNumber));
    assert_eq!(parse_duration_millis("18446744073709551616"), Err(MatchError::InvalidNumber));
}
