use ix_match::collection::IIQCollection;
use ix_match::entity::{FileInfo, IIQFile};
use ix_match::join::JoinedIIQCollection;
use ix_match::plan::plan_matches;
use ix_match::timestamp::parse_timestamp;
use ix_match::MatchError;

fn info(dir: &str, name: &str, bytes: u64) -> FileInfo {
    let stem = name.strip_suffix(".iiq").unwrap_or(name);
    FileInfo {
        path: format!("{}/{}", dir, name),
        name: name.to_string(),
        stem: stem.to_string(),
        bytes,
    }
}

fn collection(dir: &str, names: &[(&str, u64)]) -> IIQCollection {
    let infos: Vec<FileInfo> = names.iter().map(|(n, b)| info(dir, n, *b)).collect();
    IIQCollection::new(&infos).unwrap()
}

fn paths(c: &IIQCollection) -> Vec<String> {
    c.paths()
}

#[test]
fn test_iiq_file_new() {
    let file = IIQFile::new(&info("/tmp/x", "210101_120000000.iiq", 7)).unwrap();
    assert_eq!(file.stem(), "210101_120000000");
    let dt = file.datetime();
    assert_eq!(
        (dt.year, dt.month, dt.day, dt.hour, dt.minute, dt.second, dt.milli),
        (2021, 1, 1, 12, 0, 0, 0)
    );
    assert_eq!(dt.instant, 1_609_502_400_000);
    assert_eq!(file.bytes(), 7);
    assert_eq!(file.path(), "/tmp/x/210101_120000000.iiq");
    assert_eq!(file.name(), "210101_120000000.iiq");
}

#[test]
fn test_make_iiq_collection() {
    let infos = vec![
        info("/base", "210101_120000000.iiq", 7),
        info("/base", "210101_120001000.iiq", 7),
    ];
    let collection = IIQCollection::new(&infos).unwrap();
    assert_eq!(collection.len(), 2);
    assert_eq!(
        collection.paths(),
        vec!["/base/210101_120000000.iiq".to_string(), "/base/210101_120001000.iiq".to_string()]
    );
}

#[test]
fn test_join_collections() {
    let rgb = collection("rgb", &[("210101_120000000.iiq", 7), ("210101_120001000.iiq", 7)]);
    let nir = collection("nir", &[("210101_120000100.iiq", 7), ("210101_120001100.iiq", 7)]);
    let result = JoinedIIQCollection::new(&rgb, &nir).unwrap();
    assert_eq!(result.len(), 2);
    let mut joined = result.joined().clone();
    joined.sort();
    assert_eq!(joined, vec![(Some(0), Some(0), 100), (Some(1), Some(1), 100)]);
    assert_eq!(result.rgb().get(0).path(), "rgb/210101_120000000.iiq");
    assert_eq!(result.nir().get(1).path(), "nir/210101_120001100.iiq");
}

#[test]
fn test_collection() {
    let rgb = collection("rgb", &[("210101_120000000.iiq", 7), ("210101_120001000.iiq", 7)]);
    let nir = collection("nir", &[("210101_120000100.iiq", 7), ("210101_120001100.iiq", 7)]);
    assert_eq!(rgb.len(), 2);
    assert_eq!(nir.len(), 2);
}

#[test]
fn test_process_images() {
    let rgb = collection("rgb", &[("210101_120000000.iiq", 7), ("210101_120001000.iiq", 7)]);
    let nir = collection("nir", &[("210101_120000100.iiq", 7), ("210101_120001100.iiq", 7)]);
    let plan = plan_matches(rgb, nir, 200, false).unwrap();
    assert_eq!(plan.rgb_count, 2);
    assert_eq!(plan.nir_count, 2);
    assert_eq!(plan.matched_count, 2);
    assert_eq!(plan.empty_rgb_count, 0);
    assert_eq!(plan.empty_nir_count, 0);
    assert_eq!(plan.unmatched_rgb.len(), 0);
    assert_eq!(plan.unmatched_nir.len(), 0);
}

#[test]
fn test_process_images_dry_run() {
    let rgb = collection("rgb", &[("210101_120000000.iiq", 7), ("210101_120001000.iiq", 7)]);
    let nir = collection("nir", &[("210101_120000100.iiq", 7), ("210101_120005000.iiq", 7)]);
    let plan = plan_matches(rgb, nir, 200, true).unwrap();
    assert_eq!(plan.rgb_count, 2);
    assert_eq!(plan.nir_count, 2);
    assert_eq!(plan.matched_count, 1);
    assert_eq!(plan.empty_rgb_count, 0);
    assert_eq!(plan.empty_nir_count, 0);
}

#[test]
fn test_process_images_with_unmatched() {
    let rgb = collection("rgb", &[("210101_120000000.iiq", 7), ("210101_120001000.iiq", 7)]);
    let nir = collection("nir", &[("210101_120000100.iiq", 7), ("210101_120005000.iiq", 7)]);
    let plan = plan_matches(rgb, nir, 200, true).unwrap();
    assert_eq!(plan.rgb_count, 2);
    assert_eq!(plan.nir_count, 2);
    assert_eq!(plan.matched_count, 1);
    assert_eq!(plan.empty_rgb_count, 0);
    assert_eq!(plan.empty_nir_count, 0);
    assert_eq!(paths(&plan.matched_rgb), vec!["rgb/210101_120000000.iiq".to_string()]);
    assert_eq!(paths(&plan.matched_nir), vec!["nir/210101_120000100.iiq".to_string()]);
    assert_eq!(paths(&plan.unmatched_rgb), vec!["rgb/210101_120001000.iiq".to_string()]);
    assert_eq!(paths(&plan.unmatched_nir), vec!["nir/210101_120005000.iiq".to_string()]);
}

#[test]
fn test_process_images_with_uneven_numbers() {
    let rgb = collection("rgb", &[("210101_120000000.iiq", 7)]);
    let nir = collection("nir", &[("210101_120000100.iiq", 7), ("210101_120005000.iiq", 7)]);
    let plan = plan_matches(rgb, nir, 200, true).unwrap();
    assert_eq!(plan.rgb_count, 1);
    assert_eq!(plan.nir_count, 2);
    assert_eq!(plan.matched_count, 1);
    assert_eq!(plan.empty_rgb_count, 0);
    assert_eq!(plan.empty_nir_count, 0);
    assert_eq!(paths(&plan.matched_rgb), vec!["rgb/210101_120000000.iiq".to_string()]);
    assert_eq!(paths(&plan.matched_nir), vec!["nir/210101_120000100.iiq".to_string()]);
    assert_eq!(plan.unmatched_rgb.len(), 0);
    assert_eq!(paths(&plan.unmatched_nir), vec!["nir/210101_120005000.iiq".to_string()]);
}

#[test]
fn test_process_images_with_keep_empty() {
    let rgb = collection("rgb", &[("210101_120000000.iiq", 7), ("210101_130000000.iiq", 0)]);
    let nir = collection("nir", &[("210101_120000100.iiq", 7), ("210101_130000100.iiq", 0)]);
    let plan = plan_matches(rgb, nir, 200, true).unwrap();
    assert_eq!(plan.rgb_count, 2);
    assert_eq!(plan.nir_count, 2);
    assert_eq!(plan.matched_count, 2);
    assert_eq!(plan.empty_rgb_count, 1);
    assert_eq!(plan.empty_nir_count, 1);
    assert_eq!(plan.empty_rgb.len(), 0);
    assert_eq!(plan.empty_nir.len(), 0);
}

#[test]
fn test_process_images_with_no_keep_empty() {
    let rgb = collection("rgb", &[("210101_120000000.iiq", 7), ("210101_130000000.iiq", 0)]);
    let nir = collection("nir", &[("210101_120000100.iiq", 7), ("210101_130000100.iiq", 0)]);
    let plan = plan_matches(rgb, nir, 200, false).unwrap();
    assert_eq!(plan.rgb_count, 2);
    assert_eq!(plan.nir_count, 2);
    assert_eq!(plan.matched_count, 1);
    assert_eq!(plan.empty_rgb_count, 1);
    assert_eq!(plan.empty_nir_count, 1);
    assert_eq!(paths(&plan.empty_rgb), vec!["rgb/210101_130000000.iiq".to_string()]);
    assert_eq!(paths(&plan.empty_nir), vec!["nir/210101_130000100.iiq".to_string()]);
    assert_eq!(paths(&plan.matched_rgb), vec!["rgb/210101_120000000.iiq".to_string()]);
    assert_eq!(paths(&plan.matched_nir), vec!["nir/210101_120000100.iiq".to_string()]);
}

#[test]
fn test_get_closest_file_by_datetime() {
    let collection = collection(
        "/base",
        &[("210101_120000000.iiq", 7), ("210101_120001000.iiq", 7), ("210101_120002000.iiq", 7)],
    );
    let target = parse_timestamp("210101_120000500").unwrap();
    let closest = collection.get_closest_file_by_datetime(&target).unwrap();
    assert_eq!(closest.path(), "/base/210101_120000000.iiq");

    let target = parse_timestamp("210101_120001500").unwrap();
    let closest = collection.get_closest_file_by_datetime(&target).unwrap();
    assert_eq!(closest.path(), "/base/210101_120001000.iiq");

    let target = parse_timestamp("210101_120002500").unwrap();
    let closest = collection.get_closest_file_by_datetime(&target).unwrap();
    assert_eq!(closest.path(), "/base/210101_120002000.iiq");
}

#[test]
fn test_get_closest_file_by_datetime_empty_collection() {
    let collection = IIQCollection::from(vec![]);
    let target = parse_timestamp("210101_120000500").unwrap();
    let result = collection.get_closest_file_by_datetime(&target);
    assert!(result.is_err());
    assert_eq!(collection.closest_index(target.instant), Err(MatchError::EmptyCollection));
}
