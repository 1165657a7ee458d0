//! One run over two channels: set empty files aside, join, and classify.
use vstd::prelude::*;
use crate::MatchError;
use crate::collection::{select_sized, sort_by_time, views, IIQCollection};
use crate::entity::{FileView, IIQFile};
use crate::join::{joined_spec, rgb_drives, side_files, valid_choice, JoinedIIQCollection};

verus! {

/// What a run found and which files go where.
pub struct MatchPlan {
    /// Files found in the first channel, empty ones included.
    pub rgb_count: usize,
    /// Files found in the second channel, empty ones included.
    pub nir_count: usize,
    /// Pairs matched within the threshold.
    pub matched_count: usize,
    /// Empty files in the first channel.
    pub empty_rgb_count: usize,
    /// Empty files in the second channel.
    pub empty_nir_count: usize,
    /// Empty files of the first channel set aside before matching.
    pub empty_rgb: IIQCollection,
    /// Empty files of the second channel set aside before matching.
    pub empty_nir: IIQCollection,
    pub matched_rgb: IIQCollection,
    pub matched_nir: IIQCollection,
    pub unmatched_rgb: IIQCollection,
    pub unmatched_nir: IIQCollection,
}

/// The files of a channel that take part in matching.
pub open spec fn matching_files(s: Seq<FileView>, keep_empty_files: bool) -> Seq<FileView> {
    if keep_empty_files {
        s
    } else {
        select_sized(s, false)
    }
}

/// The files of a channel set aside as empty before matching.
pub open spec fn set_aside(s: Seq<FileView>, keep_empty_files: bool) -> Seq<FileView> {
    if keep_empty_files {
        Seq::empty()
    } else {
        select_sized(s, true)
    }
}

/// The outcome of classifying the join of `rgb` and `nir` (after empty files
/// were set aside) when the driver's lookups chose `choice`.
pub open spec fn plan_outcome(
    p: MatchPlan,
    rgb: Seq<FileView>,
    nir: Seq<FileView>,
    choice: Seq<int>,
    max_dt: u64,
) -> bool {
    let j = joined_spec(rgb, nir, choice);
    &&& valid_choice(
        if rgb_drives(rgb, nir) {
            rgb
        } else {
            nir
        },
        if rgb_drives(rgb, nir) {
            nir
        } else {
            rgb
        },
        choice,
    )
    &&& p.matched_rgb@ == sort_by_time(side_files(j, max_dt, rgb, true, true))
    &&& p.matched_nir@ == sort_by_time(side_files(j, max_dt, nir, false, true))
    &&& p.unmatched_rgb@ == sort_by_time(side_files(j, max_dt, rgb, true, false))
    &&& p.unmatched_nir@ == sort_by_time(side_files(j, max_dt, nir, false, false))
    &&& p.matched_count == p.matched_rgb@.len()
}

/// The matched and unmatched files of `p` are those of a join of the files
/// of `rgb` and `nir` that take part in matching.
pub open spec fn classified(
    p: MatchPlan,
    rgb: Seq<FileView>,
    nir: Seq<FileView>,
    keep_empty_files: bool,
    max_dt: u64,
) -> bool {
    exists|choice: Seq<int>|
        plan_outcome(
            p,
            matching_files(rgb, keep_empty_files),
            matching_files(nir, keep_empty_files),
            choice,
            max_dt,
        )
}

/// Plans a run: counts the files and the empty files of each channel, sets
/// the empty files aside unless `keep_empty_files`, joins what remains, and
/// splits it into matched (at most `max_dt` milliseconds apart) and unmatched
/// files. Fails when exactly one channel has no file left to match.
pub fn plan_matches(rgb: IIQCollection, nir: IIQCollection, max_dt: u64, keep_empty_files: bool) -> (r:
    Result<MatchPlan, MatchError>)
    requires
        rgb.wf(),
        nir.wf(),
    ensures
        r is Err <==> ((matching_files(rgb@, keep_empty_files).len() == 0) != (matching_files(
            nir@,
            keep_empty_files,
        ).len() == 0)),
        r matches Err(e) ==> e == MatchError::EmptyCollection,
        r matches Ok(p) ==> {
            &&& p.rgb_count == rgb@.len()
            &&& p.nir_count == nir@.len()
            &&& p.empty_rgb_count == select_sized(rgb@, true).len()
            &&& p.empty_nir_count == select_sized(nir@, true).len()
            &&& p.empty_rgb@ == set_aside(rgb@, keep_empty_files)
            &&& p.empty_nir@ == set_aside(nir@, keep_empty_files)
        },
        r matches Ok(p) ==> classified(p, rgb@, nir@, keep_empty_files, max_dt),
{
    let ghost rgb0 = rgb@;
    let ghost nir0 = nir@;
    let mut rgb = rgb;
    let mut nir = nir;
    let rgb_count = rgb.len();
    let nir_count = nir.len();
    let empty_rgb_count = rgb.empty_files_len();
    let empty_nir_count = nir.empty_files_len();
    let (empty_rgb, empty_nir) = if keep_empty_files {
        (IIQCollection::from(Vec::new()), IIQCollection::from(Vec::new()))
    } else {
        (rgb.pop_empty_files(), nir.pop_empty_files())
    };
    proof {
        assert(views(Seq::<IIQFile>::empty()) =~= Seq::<FileView>::empty());
        assert(sort_by_time(Seq::<FileView>::empty()) == Seq::<FileView>::empty());
        assert(empty_rgb@ == set_aside(rgb0, keep_empty_files));
        assert(empty_nir@ == set_aside(nir0, keep_empty_files));
        assert(rgb@ == matching_files(rgb0, keep_empty_files));
        assert(nir@ == matching_files(nir0, keep_empty_files));
    }
    let joined = match JoinedIIQCollection::new(&rgb, &nir) {
        Ok(j) => j,
        Err(e) => return Err(e),
    };
    let matched_rgb = joined.get_matched_rgb(max_dt);
    let matched_nir = joined.get_matched_nir(max_dt);
    let unmatched_rgb = joined.get_unmatched_rgb(max_dt);
    let unmatched_nir = joined.get_unmatched_nir(max_dt);
    let matched_count = matched_rgb.len();
    let ghost choice = choose|c: Seq<int>|
        valid_choice(
            if rgb_drives(rgb@, nir@) {
                rgb@
            } else {
                nir@
            },
            if rgb_drives(rgb@, nir@) {
                nir@
            } else {
                rgb@
            },
            c,
        ) && joined.entries() == joined_spec(rgb@, nir@, c);
    let plan = MatchPlan {
            rgb_count,
            nir_count,
            matched_count,
            empty_rgb_count,
            empty_nir_count,
            empty_rgb,
            empty_nir,
            matched_rgb,
            matched_nir,
            unmatched_rgb,
            unmatched_nir,
        };
    proof {
        assert(plan_outcome(plan, rgb@, nir@, choice, max_dt));
        assert(plan_outcome(
            plan,
            matching_files(rgb0, keep_empty_files),
            matching_files(nir0, keep_empty_files),
            choice,
            max_dt,
        ));
        assert(classified(plan, rgb0, nir0, keep_empty_files, max_dt));
    }
    Ok(plan)
}

} // verus!
