//! The one-to-one nearest-time join of two channels, and its split into
//! matched and unmatched files.
use vstd::prelude::*;
use crate::MatchError;
use crate::collection::{dist, is_nearest, sort_by_time, views, IIQCollection};
use crate::entity::{abs_diff_millis, is_stamped, key, FileView, IIQFile};

verus! {

/// One row of a join: the position of the first channel's file, the
/// position of the second channel's file, and the distance between them in
/// milliseconds (`u64::MAX` where a side has no file).
pub type JoinEntry = (Option<usize>, Option<usize>, u64);

/// The milliseconds between two files' times.
pub open spec fn delta(a: FileView, b: FileView) -> u64 {
    dist(key(a), key(b)) as u64
}

/// The first channel drives the join when it is the shorter one.
pub open spec fn rgb_drives(rgb: Seq<FileView>, nir: Seq<FileView>) -> bool {
    rgb.len() < nir.len()
}

pub open spec fn initial_slots(n: nat) -> Seq<(Option<usize>, u64)> {
    Seq::new(n, |i: int| (None::<usize>, u64::MAX))
}

/// The claims on the target files after the first `k` driver files, where
/// driver file `i` looked up target file `choice[i]`: a driver takes a
/// target's slot when it is strictly nearer than the driver holding it.
pub open spec fn claims(
    driver: Seq<FileView>,
    target: Seq<FileView>,
    choice: Seq<int>,
    k: nat,
) -> Seq<(Option<usize>, u64)>
    decreases k,
{
    if k == 0 {
        initial_slots(target.len())
    } else {
        let prev = claims(driver, target, choice, (k - 1) as nat);
        let t = choice[k - 1];
        let d = delta(driver[k - 1], target[t]);
        if d < prev[t].1 {
            prev.update(t, (Some((k - 1) as usize), d))
        } else {
            prev
        }
    }
}

/// Each driver file `i` looked up a target file nearest to it.
pub open spec fn valid_choice(driver: Seq<FileView>, target: Seq<FileView>, choice: Seq<int>) -> bool {
    &&& choice.len() == driver.len()
    &&& forall|i: int| 0 <= i < driver.len() ==> is_nearest(target, #[trigger] choice[i], key(driver[i]))
}

/// The join of two channels, one row per file of the target (the longer
/// channel, or the second one at equal lengths), in the target's order.
pub open spec fn joined_spec(rgb: Seq<FileView>, nir: Seq<FileView>, choice: Seq<int>) -> Seq<JoinEntry> {
    let driver = if rgb_drives(rgb, nir) { rgb } else { nir };
    let target = if rgb_drives(rgb, nir) { nir } else { rgb };
    let slots = claims(driver, target, choice, driver.len());
    Seq::new(
        target.len(),
        |i: int|
            if rgb_drives(rgb, nir) {
                (slots[i].0, Some(i as usize), slots[i].1)
            } else {
                (Some(i as usize), slots[i].0, slots[i].1)
            },
    )
}

/// The position of the target file in a row.
pub open spec fn target_side(e: JoinEntry, rgb_is_driver: bool) -> Option<usize> {
    if rgb_is_driver {
        e.1
    } else {
        e.0
    }
}

/// Both files are present and at most `max_dt` milliseconds apart.
pub open spec fn is_matched(e: JoinEntry, max_dt: u64) -> bool {
    e.0 is Some && e.1 is Some && e.2 <= max_dt
}

/// The first-channel files (when `first`) or second-channel files of the
/// rows that are matched (when `matched`) or unmatched, in row order.
pub open spec fn side_files(
    s: Seq<JoinEntry>,
    max_dt: u64,
    files: Seq<FileView>,
    first: bool,
    matched: bool,
) -> Seq<FileView>
    decreases s.len(),
{
    if s.len() == 0 {
        Seq::empty()
    } else {
        let prev = side_files(s.drop_last(), max_dt, files, first, matched);
        let e = s.last();
        let side = if first {
            e.0
        } else {
            e.1
        };
        if is_matched(e, max_dt) == matched && side is Some {
            prev.push(files[side->0 as int])
        } else {
            prev
        }
    }
}

/// The rows that are matched (when `matched`) or unmatched, in order.
pub open spec fn rows(s: Seq<JoinEntry>, max_dt: u64, matched: bool) -> Seq<JoinEntry>
    decreases s.len(),
{
    if s.len() == 0 {
        Seq::empty()
    } else {
        let prev = rows(s.drop_last(), max_dt, matched);
        if is_matched(s.last(), max_dt) == matched {
            prev.push(s.last())
        } else {
            prev
        }
    }
}

proof fn lemma_claims_bounds(driver: Seq<FileView>, target: Seq<FileView>, choice: Seq<int>, k: nat)
    requires
        k <= driver.len(),
        forall|i: int| 0 <= i < k ==> 0 <= #[trigger] choice[i] < target.len(),
    ensures
        claims(driver, target, choice, k).len() == target.len(),
        forall|i: int|
            0 <= i < target.len() ==> ((#[trigger] claims(driver, target, choice, k)[i]).0 matches Some(
                d,
            ) ==> d < k),
    decreases k,
{
    if k > 0 {
        lemma_claims_bounds(driver, target, choice, (k - 1) as nat);
    }
}

/// Every file of the target channel stands in exactly one row of the join,
/// the row at its own position, and there are no other rows.
pub proof fn lemma_target_coverage(rgb: Seq<FileView>, nir: Seq<FileView>, choice: Seq<int>)
    requires
        rgb.len() <= usize::MAX,
        nir.len() <= usize::MAX,
    ensures
        joined_spec(rgb, nir, choice).len() == (if rgb_drives(rgb, nir) {
            nir.len()
        } else {
            rgb.len()
        }),
        forall|i: int, t: int|
            #![trigger joined_spec(rgb, nir, choice)[i], joined_spec(rgb, nir, choice)[t]]
            0 <= i < joined_spec(rgb, nir, choice).len() && 0 <= t < joined_spec(rgb, nir, choice).len()
                ==> (target_side(joined_spec(rgb, nir, choice)[i], rgb_drives(rgb, nir)) == Some(
                t as usize,
            ) <==> i == t),
{
    let j = joined_spec(rgb, nir, choice);
    assert forall|i: int, t: int|
        #![trigger j[i], j[t]]
        0 <= i < j.len() && 0 <= t < j.len() implies (target_side(j[i], rgb_drives(rgb, nir))
        == Some(t as usize) <==> i == t) by {
        assert(target_side(j[i], rgb_drives(rgb, nir)) == Some(i as usize));
    }
}

/// A pair whose distance equals the threshold exactly is matched, and not
/// unmatched.
pub proof fn lemma_threshold_inclusive(e: JoinEntry, max_dt: u64)
    requires
        e.0 is Some,
        e.1 is Some,
        e.2 == max_dt,
    ensures
        is_matched(e, max_dt),
        rows(seq![e], max_dt, true) == seq![e],
        rows(seq![e], max_dt, false) == Seq::<JoinEntry>::empty(),
{
    let s = seq![e];
    assert(s.drop_last() =~= Seq::<JoinEntry>::empty());
    assert(s.last() == e);
    assert(rows(s.drop_last(), max_dt, true) == Seq::<JoinEntry>::empty());
    assert(rows(s.drop_last(), max_dt, false) == Seq::<JoinEntry>::empty());
    assert(rows(s, max_dt, true) =~= seq![e]);
    assert(rows(s, max_dt, false) =~= Seq::<JoinEntry>::empty());
}

/// The nearest-time join of two channels.
pub struct JoinedIIQCollection {
    rgb: IIQCollection,
    nir: IIQCollection,
    joined: Vec<JoinEntry>,
}

impl JoinedIIQCollection {
    pub closed spec fn rgb_files(&self) -> Seq<FileView> {
        self.rgb@
    }

    pub closed spec fn nir_files(&self) -> Seq<FileView> {
        self.nir@
    }

    pub closed spec fn entries(&self) -> Seq<JoinEntry> {
        self.joined@
    }

    /// Both channels are well formed and every row points at files that exist.
    pub open spec fn wf(&self) -> bool {
        &&& is_sorted_stamped(self.rgb_files())
        &&& is_sorted_stamped(self.nir_files())
        &&& forall|i: int|
            0 <= i < self.entries().len() ==> ((#[trigger] self.entries()[i]).0 matches Some(r)
                ==> r < self.rgb_files().len())
        &&& forall|i: int|
            0 <= i < self.entries().len() ==> ((#[trigger] self.entries()[i]).1 matches Some(n)
                ==> n < self.nir_files().len())
    }
}

impl JoinedIIQCollection {
    /// Joins two channels. The shorter channel drives (the second one at equal
    /// lengths): each of its files, in order, looks up a nearest file of the
    /// other channel, the target, and claims it when strictly nearer than the
    /// file that holds it. The result has one row per target file. Fails when
    /// exactly one channel is empty; two empty channels give no rows.
    pub fn new(rgb: &IIQCollection, nir: &IIQCollection) -> (r: Result<JoinedIIQCollection, MatchError>)
        requires
            rgb.wf(),
            nir.wf(),
        ensures
            r is Err <==> ((rgb@.len() == 0) != (nir@.len() == 0)),
            r matches Err(e) ==> e == MatchError::EmptyCollection,
            r matches Ok(j) ==> {
                &&& j.rgb_files() == rgb@
                &&& j.nir_files() == nir@
                &&& j.wf()
                &&& exists|choice: Seq<int>|
                    valid_choice(
                        if rgb_drives(rgb@, nir@) {
                            rgb@
                        } else {
                            nir@
                        },
                        if rgb_drives(rgb@, nir@) {
                            nir@
                        } else {
                            rgb@
                        },
                        choice,
                    ) && j.entries() == joined_spec(rgb@, nir@, choice)
            },
    {
        if (rgb.len() == 0) != (nir.len() == 0) {
            return Err(MatchError::EmptyCollection);
        }
        let rgb_shorter = rgb.len() < nir.len();
        let driver: &IIQCollection = if rgb_shorter {
            rgb
        } else {
            nir
        };
        let target: &IIQCollection = if rgb_shorter {
            nir
        } else {
            rgb
        };
        let ghost dv = driver@;
        let ghost tv = target@;
        let mut slots: Vec<(Option<usize>, u64)> = Vec::new();
        while slots.len() < target.len()
            invariant
                slots@.len() <= tv.len(),
                tv == target@,
                forall|j: int| 0 <= j < slots@.len() ==> #[trigger] slots@[j] == (None::<usize>, u64::MAX),
            decreases tv.len() - slots@.len(),
        {
            slots.push((None, u64::MAX));
        }
        proof {
            assert(slots@ =~= initial_slots(tv.len()));
        }
        let ghost mut choice: Seq<int> = Seq::empty();
        let mut i: usize = 0;
        while i < driver.len()
            invariant
                dv == driver@,
                tv == target@,
                target.wf(),
                dv.len() <= tv.len(),
                i <= dv.len(),
                choice.len() == i,
                forall|k: int| 0 <= k < i ==> is_nearest(tv, #[trigger] choice[k], key(dv[k])),
                slots@ == claims(dv, tv, choice, i as nat),
            decreases dv.len() - i,
        {
            let d = driver.get(i);
            let t = match target.closest_index(d.instant()) {
                Ok(t) => t,
                Err(e) => return Err(e),
            };
            let dt = abs_diff_millis(d.instant(), target.get(t).instant());
            let ghost prev_choice = choice;
            proof {
                choice = choice.push(t as int);
                lemma_claims_bounds(dv, tv, prev_choice, i as nat);
                assert forall|k: int| 0 <= k < i implies #[trigger] choice[k] == prev_choice[k] by {}
                assert(claims(dv, tv, choice, i as nat) == claims(dv, tv, prev_choice, i as nat)) by {
                    lemma_claims_prefix(dv, tv, prev_choice, choice, i as nat);
                }
            }
            if dt < slots[t].1 {
                slots.set(t, (Some(i), dt));
            }
            i = i + 1;
        }
        let mut joined: Vec<JoinEntry> = Vec::new();
        let mut j: usize = 0;
        proof {
            lemma_claims_bounds(dv, tv, choice, dv.len());
        }
        while j < slots.len()
            invariant
                slots@ == claims(dv, tv, choice, dv.len()),
                slots@.len() == tv.len(),
                dv == driver@,
                tv == target@,
                j <= slots@.len(),
                joined@.len() == j,
                rgb_shorter == rgb_drives(rgb@, nir@),
                dv == (if rgb_shorter {
                    rgb@
                } else {
                    nir@
                }),
                tv == (if rgb_shorter {
                    nir@
                } else {
                    rgb@
                }),
                forall|k: int|
                    0 <= k < j ==> #[trigger] joined@[k] == joined_spec(rgb@, nir@, choice)[k],
            decreases slots@.len() - j,
        {
            let (claimer, dt) = slots[j];
            if rgb_shorter {
                joined.push((claimer, Some(j), dt));
            } else {
                joined.push((Some(j), claimer, dt));
            }
            j = j + 1;
        }
        proof {
            assert(joined@ =~= joined_spec(rgb@, nir@, choice));
        }
        let r = JoinedIIQCollection { rgb: rgb.duplicate(), nir: nir.duplicate(), joined };
        proof {
            assert(valid_choice(dv, tv, choice));
        }
        Ok(r)
    }
}

proof fn lemma_claims_prefix(
    driver: Seq<FileView>,
    target: Seq<FileView>,
    a: Seq<int>,
    b: Seq<int>,
    k: nat,
)
    requires
        k <= a.len(),
        k <= b.len(),
        forall|i: int| 0 <= i < k ==> a[i] == b[i],
    ensures
        claims(driver, target, a, k) == claims(driver, target, b, k),
    decreases k,
{
    if k > 0 {
        lemma_claims_prefix(driver, target, a, b, (k - 1) as nat);
    }
}

/// The matched rows as pairs of files, in row order.
pub open spec fn matched_pairs(
    s: Seq<JoinEntry>,
    max_dt: u64,
    rgb: Seq<FileView>,
    nir: Seq<FileView>,
) -> Seq<(FileView, FileView)>
    decreases s.len(),
{
    if s.len() == 0 {
        Seq::empty()
    } else {
        let prev = matched_pairs(s.drop_last(), max_dt, rgb, nir);
        let e = s.last();
        if is_matched(e, max_dt) {
            prev.push((rgb[e.0->0 as int], nir[e.1->0 as int]))
        } else {
            prev
        }
    }
}

pub open spec fn side_view(side: Option<usize>, files: Seq<FileView>) -> Option<FileView> {
    match side {
        Some(i) => Some(files[i as int]),
        None => None,
    }
}

pub open spec fn opt_view(f: Option<IIQFile>) -> Option<FileView> {
    match f {
        Some(f) => Some(f@),
        None => None,
    }
}

/// The unmatched rows with the files that are present, in row order.
pub open spec fn unmatched_pairs(
    s: Seq<JoinEntry>,
    max_dt: u64,
    rgb: Seq<FileView>,
    nir: Seq<FileView>,
) -> Seq<(Option<FileView>, Option<FileView>)>
    decreases s.len(),
{
    if s.len() == 0 {
        Seq::empty()
    } else {
        let prev = unmatched_pairs(s.drop_last(), max_dt, rgb, nir);
        let e = s.last();
        if !is_matched(e, max_dt) {
            prev.push((side_view(e.0, rgb), side_view(e.1, nir)))
        } else {
            prev
        }
    }
}

proof fn lemma_side_files_in(
    s: Seq<JoinEntry>,
    max_dt: u64,
    files: Seq<FileView>,
    first: bool,
    matched: bool,
)
    requires
        forall|i: int|
            0 <= i < s.len() ==> ((if first {
                (#[trigger] s[i]).0
            } else {
                s[i].1
            }) matches Some(k) ==> k < files.len()),
    ensures
        forall|i: int|
            0 <= i < side_files(s, max_dt, files, first, matched).len() ==> files.contains(
                #[trigger] side_files(s, max_dt, files, first, matched)[i],
            ),
    decreases s.len(),
{
    if s.len() > 0 {
        let d = s.drop_last();
        assert forall|i: int|
            0 <= i < d.len() implies ((if first {
            (#[trigger] d[i]).0
        } else {
            d[i].1
        }) matches Some(k) ==> k < files.len()) by {
            assert(d[i] == s[i]);
        }
        lemma_side_files_in(d, max_dt, files, first, matched);
        let e = s.last();
        let side = if first {
            e.0
        } else {
            e.1
        };
        let r = side_files(s, max_dt, files, first, matched);
        let prev = side_files(d, max_dt, files, first, matched);
        assert forall|i: int| 0 <= i < r.len() implies files.contains(#[trigger] r[i]) by {
            if i < prev.len() {
                assert(r[i] == prev[i]);
            } else {
                let k = side->0 as int;
                assert(s[s.len() - 1] == e);
                assert(r[i] == files[k]);
                assert(0 <= k < files.len());
            }
        }
    }
}

impl JoinedIIQCollection {
    /// The first channel's files.
    pub fn rgb(&self) -> (r: &IIQCollection)
        ensures
            r@ == self.rgb_files(),
    {
        &self.rgb
    }

    /// The second channel's files.
    pub fn nir(&self) -> (r: &IIQCollection)
        ensures
            r@ == self.nir_files(),
    {
        &self.nir
    }

    /// The rows of the join.
    pub fn joined(&self) -> (r: &Vec<JoinEntry>)
        ensures
            r@ == self.entries(),
    {
        &self.joined
    }

    /// The number of rows.
    pub fn len(&self) -> (r: usize)
        ensures
            r == self.entries().len(),
    {
        self.joined.len()
    }

    /// The files of one side of the matched (or the unmatched) rows.
    fn collect_side(&self, max_dt: u64, first: bool, matched: bool) -> (r: Vec<IIQFile>)
        requires
            self.wf(),
        ensures
            views(r@) == side_files(
                self.entries(),
                max_dt,
                if first {
                    self.rgb_files()
                } else {
                    self.nir_files()
                },
                first,
                matched,
            ),
    {
        let ghost files = if first {
            self.rgb@
        } else {
            self.nir@
        };
        let mut out: Vec<IIQFile> = Vec::new();
        let mut i: usize = 0;
        while i < self.joined.len()
            invariant
                self.wf(),
                i <= self.joined@.len(),
                files == (if first {
                    self.rgb@
                } else {
                    self.nir@
                }),
                views(out@) == side_files(self.joined@.take(i as int), max_dt, files, first, matched),
            decreases self.joined@.len() - i,
        {
            let e = self.joined[i];
            let ghost prev = out@;
            proof {
                assert(self.joined@.take(i + 1).drop_last() =~= self.joined@.take(i as int));
                assert(self.joined@.take(i + 1).last() == e);
            }
            let side = if first {
                e.0
            } else {
                e.1
            };
            let is_match = e.0.is_some() && e.1.is_some() && e.2 <= max_dt;
            if is_match == matched {
                if let Some(k) = side {
                    let f = if first {
                        self.rgb.get(k).duplicate()
                    } else {
                        self.nir.get(k).duplicate()
                    };
                    out.push(f);
                    proof {
                        assert(views(out@) =~= views(prev).push(f@));
                    }
                }
            }
            i = i + 1;
        }
        proof {
            assert(self.joined@.take(i as int) =~= self.joined@);
        }
        out
    }

    /// The pairs of files that are both present and at most `max_dt`
    /// milliseconds apart, in row order.
    pub fn get_matched(&self, max_dt: u64) -> (r: Vec<(IIQFile, IIQFile)>)
        requires
            self.wf(),
        ensures
            r@.len() == matched_pairs(self.entries(), max_dt, self.rgb_files(), self.nir_files()).len(),
            forall|k: int|
                0 <= k < r@.len() ==> ((#[trigger] r@[k]).0@, r@[k].1@) == matched_pairs(
                    self.entries(),
                    max_dt,
                    self.rgb_files(),
                    self.nir_files(),
                )[k],
    {
        let mut out: Vec<(IIQFile, IIQFile)> = Vec::new();
        let mut i: usize = 0;
        while i < self.joined.len()
            invariant
                self.wf(),
                i <= self.joined@.len(),
                out@.len() == matched_pairs(self.joined@.take(i as int), max_dt, self.rgb@, self.nir@).len(),
                forall|k: int|
                    0 <= k < out@.len() ==> ((#[trigger] out@[k]).0@, out@[k].1@) == matched_pairs(
                        self.joined@.take(i as int),
                        max_dt,
                        self.rgb@,
                        self.nir@,
                    )[k],
            decreases self.joined@.len() - i,
        {
            let e = self.joined[i];
            proof {
                assert(self.joined@.take(i + 1).drop_last() =~= self.joined@.take(i as int));
                assert(self.joined@.take(i + 1).last() == e);
            }
            match e {
                (Some(a), Some(b), dt) => {
                    if dt <= max_dt {
                        let fa = self.rgb.get(a).duplicate();
                        let fb = self.nir.get(b).duplicate();
                        out.push((fa, fb));
                    }
                },
                _ => {},
            }
            i = i + 1;
        }
        proof {
            assert(self.joined@.take(i as int) =~= self.joined@);
        }
        out
    }

    /// The rows that are not matched (a side is missing, or the files are
    /// more than `max_dt` milliseconds apart), with the files present.
    pub fn get_unmatched(&self, max_dt: u64) -> (r: Vec<(Option<IIQFile>, Option<IIQFile>)>)
        requires
            self.wf(),
        ensures
            r@.len() == unmatched_pairs(self.entries(), max_dt, self.rgb_files(), self.nir_files()).len(),
            forall|k: int|
                0 <= k < r@.len() ==> (opt_view((#[trigger] r@[k]).0), opt_view(r@[k].1))
                    == unmatched_pairs(self.entries(), max_dt, self.rgb_files(), self.nir_files())[k],
    {
        let mut out: Vec<(Option<IIQFile>, Option<IIQFile>)> = Vec::new();
        let mut i: usize = 0;
        while i < self.joined.len()
            invariant
                self.wf(),
                i <= self.joined@.len(),
                out@.len() == unmatched_pairs(self.joined@.take(i as int), max_dt, self.rgb@, self.nir@).len(),
                forall|k: int|
                    0 <= k < out@.len() ==> (opt_view((#[trigger] out@[k]).0), opt_view(out@[k].1))
                        == unmatched_pairs(self.joined@.take(i as int), max_dt, self.rgb@, self.nir@)[k],
            decreases self.joined@.len() - i,
        {
            let e = self.joined[i];
            proof {
                assert(self.joined@.take(i + 1).drop_last() =~= self.joined@.take(i as int));
                assert(self.joined@.take(i + 1).last() == e);
            }
            let is_match = e.0.is_some() && e.1.is_some() && e.2 <= max_dt;
            if !is_match {
                let fa = match e.0 {
                    Some(a) => Some(self.rgb.get(a).duplicate()),
                    None => None,
                };
                let fb = match e.1 {
                    Some(b) => Some(self.nir.get(b).duplicate()),
                    None => None,
                };
                out.push((fa, fb));
            }
            i = i + 1;
        }
        proof {
            assert(self.joined@.take(i as int) =~= self.joined@);
        }
        out
    }

    fn side_collection(&self, max_dt: u64, first: bool, matched: bool) -> (r: IIQCollection)
        requires
            self.wf(),
        ensures
            r@ == sort_by_time(
                side_files(
                    self.entries(),
                    max_dt,
                    if first {
                        self.rgb_files()
                    } else {
                        self.nir_files()
                    },
                    first,
                    matched,
                ),
            ),
            r.wf(),
    {
        let files = self.collect_side(max_dt, first, matched);
        proof {
            let fs = if first {
                self.rgb@
            } else {
                self.nir@
            };
            lemma_side_files_in(self.joined@, max_dt, fs, first, matched);
            assert forall|i: int| 0 <= i < files@.len() implies is_stamped(#[trigger] files@[i]@) by {
                assert(views(files@)[i] == files@[i]@);
                let j = choose|j: int| 0 <= j < fs.len() && fs[j] == views(files@)[i];
            }
        }
        IIQCollection::from(files)
    }

    /// The first channel's matched files, sorted by time.
    pub fn get_matched_rgb(&self, max_dt: u64) -> (r: IIQCollection)
        requires
            self.wf(),
        ensures
            r@ == sort_by_time(side_files(self.entries(), max_dt, self.rgb_files(), true, true)),
            r.wf(),
    {
        self.side_collection(max_dt, true, true)
    }

    /// The second channel's matched files, sorted by time.
    pub fn get_matched_nir(&self, max_dt: u64) -> (r: IIQCollection)
        requires
            self.wf(),
        ensures
            r@ == sort_by_time(side_files(self.entries(), max_dt, self.nir_files(), false, true)),
            r.wf(),
    {
        self.side_collection(max_dt, false, true)
    }

    /// The first channel's files in unmatched rows, sorted by time.
    pub fn get_unmatched_rgb(&self, max_dt: u64) -> (r: IIQCollection)
        requires
            self.wf(),
        ensures
            r@ == sort_by_time(side_files(self.entries(), max_dt, self.rgb_files(), true, false)),
            r.wf(),
    {
        self.side_collection(max_dt, true, false)
    }

    /// The second channel's files in unmatched rows, sorted by time.
    pub fn get_unmatched_nir(&self, max_dt: u64) -> (r: IIQCollection)
        requires
            self.wf(),
        ensures
            r@ == sort_by_time(side_files(self.entries(), max_dt, self.nir_files(), false, false)),
            r.wf(),
    {
        self.side_collection(max_dt, false, false)
    }
}

/// Sorted by time, with every timestamp read from its file's name.
pub open spec fn is_sorted_stamped(s: Seq<FileView>) -> bool {
    &&& crate::collection::is_sorted(s)
    &&& forall|i: int| 0 <= i < s.len() ==> is_stamped(#[trigger] s[i])
}

} // verus!
