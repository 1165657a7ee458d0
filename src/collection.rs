//! A collection of capture files kept in ascending order of time.
use vstd::prelude::*;
use crate::MatchError;
use crate::entity::{
    abs_diff_millis, abs_diff_spec, entity_of, info_parses, is_stamped, key, FileInfo, FileView,
    IIQFile,
};
use crate::timestamp::Timestamp;

verus! {

pub open spec fn views(s: Seq<IIQFile>) -> Seq<FileView> {
    s.map_values(|f: IIQFile| f@)
}

/// The files that a list of file descriptions stands for, in the same order.
pub open spec fn entities(infos: Seq<FileInfo>) -> Seq<FileView> {
    infos.map_values(|i: FileInfo| entity_of(i))
}

pub open spec fn is_sorted(s: Seq<FileView>) -> bool {
    forall|i: int, j: int| 0 <= i <= j < s.len() ==> key(s[i]) <= key(s[j])
}

/// Where `x` goes in `s` when it is placed after every file, counted from the
/// end, that is not later than it.
pub open spec fn insert_pos(s: Seq<FileView>, x: FileView) -> int
    decreases s.len(),
{
    if s.len() == 0 {
        0
    } else if key(s.last()) <= key(x) {
        s.len() as int
    } else {
        insert_pos(s.drop_last(), x)
    }
}

/// `s` with `x` inserted after the last file that is not later than it.
pub open spec fn insert_by_time(s: Seq<FileView>, x: FileView) -> Seq<FileView>
    decreases s.len(),
{
    if s.len() == 0 {
        seq![x]
    } else if key(s.last()) <= key(x) {
        s.push(x)
    } else {
        insert_by_time(s.drop_last(), x).push(s.last())
    }
}

/// The stable sort of `s` by time: files with equal times keep their order.
pub open spec fn sort_by_time(s: Seq<FileView>) -> Seq<FileView>
    decreases s.len(),
{
    if s.len() == 0 {
        s
    } else {
        insert_by_time(sort_by_time(s.drop_last()), s.last())
    }
}

/// The files of `s` that are empty (when `empty`) or not empty (otherwise),
/// in their order in `s`.
pub open spec fn select_sized(s: Seq<FileView>, empty: bool) -> Seq<FileView>
    decreases s.len(),
{
    if s.len() == 0 {
        s
    } else if (s.last().bytes == 0) == empty {
        select_sized(s.drop_last(), empty).push(s.last())
    } else {
        select_sized(s.drop_last(), empty)
    }
}

/// The distance in milliseconds between time `k` and target `t`.
pub open spec fn dist(k: int, t: int) -> int {
    abs_diff_spec(k, t)
}

/// Time `a` is at least as near to `t` as time `b`, where of two times at
/// the same distance the one before `t` counts as nearer.
pub open spec fn near_le(a: int, b: int, t: int) -> bool {
    dist(a, t) < dist(b, t) || (dist(a, t) == dist(b, t) && (b < t ==> a < t))
}

/// Position `i` holds a file nearest to `t` among all of `s`.
pub open spec fn is_nearest(s: Seq<FileView>, i: int, t: int) -> bool {
    &&& 0 <= i < s.len()
    &&& forall|j: int| 0 <= j < s.len() ==> near_le(key(s[i]), key(#[trigger] s[j]), t)
}

proof fn lemma_insert_shape(s: Seq<FileView>, x: FileView)
    ensures
        0 <= insert_pos(s, x) <= s.len(),
        insert_by_time(s, x) == s.take(insert_pos(s, x)) + seq![x] + s.skip(insert_pos(s, x)),
        insert_pos(s, x) > 0 ==> key(s[insert_pos(s, x) - 1]) <= key(x),
        forall|i: int| insert_pos(s, x) <= i < s.len() ==> key(x) < key(#[trigger] s[i]),
    decreases s.len(),
{
    if s.len() == 0 {
        assert(insert_by_time(s, x) =~= s.take(0) + seq![x] + s.skip(0));
    } else if key(s.last()) <= key(x) {
        assert(insert_by_time(s, x) =~= s.take(s.len() as int) + seq![x] + s.skip(s.len() as int));
    } else {
        let d = s.drop_last();
        lemma_insert_shape(d, x);
        let p = insert_pos(d, x);
        assert(insert_by_time(s, x) =~= s.take(p) + seq![x] + s.skip(p));
        assert forall|i: int| p <= i < s.len() implies key(x) < key(#[trigger] s[i]) by {
            if i < d.len() {
                assert(s[i] == d[i]);
            }
        }
    }
}

proof fn lemma_insert_sorted(s: Seq<FileView>, x: FileView)
    requires
        is_sorted(s),
    ensures
        is_sorted(insert_by_time(s, x)),
        insert_by_time(s, x).len() == s.len() + 1,
        forall|f: FileView|
            #[trigger] insert_by_time(s, x).contains(f) <==> (s.contains(f) || f == x),
{
    lemma_insert_shape(s, x);
    let p = insert_pos(s, x);
    let r = insert_by_time(s, x);
    assert forall|i: int, j: int| 0 <= i <= j < r.len() implies key(r[i]) <= key(r[j]) by {
        if i < p && j > p {
            assert(r[j] == s[j - 1]);
        } else if i < p && j == p {
            assert(key(s[i]) <= key(s[p - 1]));
        } else if i == p && j > p {
            assert(r[j] == s[j - 1]);
        } else if i > p {
            assert(r[i] == s[i - 1] && r[j] == s[j - 1]);
        }
    }
    assert forall|f: FileView| #[trigger] r.contains(f) <==> (s.contains(f) || f == x) by {
        if r.contains(f) {
            let i = choose|i: int| 0 <= i < r.len() && r[i] == f;
            if i < p {
                assert(s[i] == f);
            } else if i > p {
                assert(s[i - 1] == f);
            }
        }
        if s.contains(f) {
            let i = choose|i: int| 0 <= i < s.len() && s[i] == f;
            if i < p {
                assert(r[i] == f);
            } else {
                assert(r[i + 1] == f);
            }
        }
        if f == x {
            assert(r[p] == f);
        }
    }
}

/// Sorting by time yields the files in ascending order of time, and the
/// same files: whatever the order of the input `s`, `sort_by_time(s)` is
/// sorted, as long as `s`, and holds a file exactly when `s` does.
pub proof fn lemma_sort_by_time(s: Seq<FileView>)
    ensures
        is_sorted(sort_by_time(s)),
        sort_by_time(s).len() == s.len(),
        forall|f: FileView| #[trigger] sort_by_time(s).contains(f) <==> s.contains(f),
    decreases s.len(),
{
    if s.len() > 0 {
        let d = s.drop_last();
        lemma_sort_by_time(d);
        lemma_insert_sorted(sort_by_time(d), s.last());
        assert forall|f: FileView| #[trigger] sort_by_time(s).contains(f) <==> s.contains(f) by {
            if s.contains(f) && f != s.last() {
                let i = choose|i: int| 0 <= i < s.len() && s[i] == f;
                assert(d[i] == f);
            }
            if d.contains(f) {
                let i = choose|i: int| 0 <= i < d.len() && d[i] == f;
                assert(s[i] == f);
            }
        }
    }
}

fn insert_file(out: &mut Vec<IIQFile>, x: IIQFile)
    ensures
        views(final(out)@) == insert_by_time(views(old(out)@), x@),
{
    let ghost s = views(out@);
    let mut p: usize = out.len();
    proof {
        assert(s.take(p as int) =~= s);
        assert(insert_by_time(s, x@) =~= insert_by_time(s.take(p as int), x@) + s.skip(p as int));
    }
    while p > 0 && out[p - 1].instant() > x.instant()
        invariant
            p <= out.len(),
            out@ == old(out)@,
            s == views(out@),
            insert_by_time(s, x@) == insert_by_time(s.take(p as int), x@) + s.skip(p as int),
        decreases p,
    {
        proof {
            let t = s.take(p as int);
            assert(t.drop_last() =~= s.take(p - 1));
            assert(t.last() == s[p - 1]);
            assert(s.skip(p - 1) =~= seq![s[p - 1]] + s.skip(p as int));
            assert(insert_by_time(t, x@) == insert_by_time(s.take(p - 1), x@).push(s[p - 1]));
            assert(insert_by_time(s.take(p - 1), x@).push(s[p - 1]) + s.skip(p as int)
                =~= insert_by_time(s.take(p - 1), x@) + s.skip(p - 1));
        }
        p = p - 1;
    }
    proof {
        let t = s.take(p as int);
        if p > 0 {
            assert(t.last() == s[p - 1]);
        }
        assert(insert_by_time(t, x@) =~= t.push(x@));
    }
    out.insert(p, x);
    proof {
        assert(views(out@) =~= s.take(p as int).push(x@) + s.skip(p as int));
    }
}

/// Sorts files by time, keeping the order of files with equal times.
fn sort_files(files: Vec<IIQFile>) -> (r: Vec<IIQFile>)
    ensures
        views(r@) == sort_by_time(views(files@)),
{
    let ghost orig = views(files@);
    let mut rest = files;
    let mut out: Vec<IIQFile> = Vec::new();
    while rest.len() > 0
        invariant
            rest.len() <= orig.len(),
            views(rest@) == orig.skip(orig.len() - rest.len()),
            views(out@) == sort_by_time(orig.take(orig.len() - rest.len())),
        decreases rest.len(),
    {
        let ghost k = orig.len() - rest.len();
        let ghost before = rest@;
        proof {
            assert(views(before)[0] == orig.skip(k)[0]);
        }
        let x = rest.remove(0);
        proof {
            assert(x@ == orig[k]);
            assert(views(rest@) =~= views(before).skip(1));
            assert(views(rest@) =~= orig.skip(k + 1));
            assert(orig.take(k + 1).drop_last() =~= orig.take(k));
        }
        insert_file(&mut out, x);
    }
    proof {
        assert(orig.take(orig.len() as int) =~= orig);
    }
    out
}

/// Capture files in ascending order of time.
pub struct IIQCollection {
    files: Vec<IIQFile>,
}

impl View for IIQCollection {
    type V = Seq<FileView>;

    closed spec fn view(&self) -> Seq<FileView> {
        views(self.files@)
    }
}

impl IIQCollection {
    /// Sorted by time, and each file's timestamp is the one its name starts with.
    pub open spec fn wf(&self) -> bool {
        &&& is_sorted(self@)
        &&& forall|i: int| 0 <= i < self@.len() ==> is_stamped(#[trigger] self@[i])
    }

    /// A collection of the given files, sorted by time (files with equal
    /// times keep their order).
    pub fn from(files: Vec<IIQFile>) -> (r: IIQCollection)
        requires
            forall|i: int| 0 <= i < files@.len() ==> is_stamped(#[trigger] files@[i]@),
        ensures
            r@ == sort_by_time(views(files@)),
            r.wf(),
    {
        let sorted = sort_files(files);
        proof {
            lemma_sort_by_time(views(files@));
            assert forall|i: int| 0 <= i < views(sorted@).len() implies is_stamped(
                #[trigger] views(sorted@)[i],
            ) by {
                assert(views(sorted@).contains(views(sorted@)[i]));
                let j = choose|j: int|
                    0 <= j < views(files@).len() && views(files@)[j] == views(sorted@)[i];
                assert(is_stamped(files@[j]@));
            }
        }
        IIQCollection { files: sorted }
    }
}


proof fn lemma_select_sized(s: Seq<FileView>, empty: bool)
    ensures
        forall|i: int|
            0 <= i < select_sized(s, empty).len() ==> ((#[trigger] select_sized(s, empty)[i]).bytes
                == 0) == empty,
        forall|f: FileView|
            #[trigger] select_sized(s, empty).contains(f) <==> (s.contains(f) && ((f.bytes == 0)
                == empty)),
        is_sorted(s) ==> is_sorted(select_sized(s, empty)),
    decreases s.len(),
{
    if s.len() > 0 {
        let d = s.drop_last();
        lemma_select_sized(d, empty);
        let r = select_sized(s, empty);
        let rd = select_sized(d, empty);
        assert forall|f: FileView| #[trigger] r.contains(f) <==> (s.contains(f) && ((f.bytes == 0)
            == empty)) by {
            if s.contains(f) && f != s.last() {
                let i = choose|i: int| 0 <= i < s.len() && s[i] == f;
                assert(d[i] == f);
            }
            if d.contains(f) {
                let i = choose|i: int| 0 <= i < d.len() && d[i] == f;
                assert(s[i] == f);
            }
            if rd.contains(f) {
                let i = choose|i: int| 0 <= i < rd.len() && rd[i] == f;
                assert(r[i] == f);
            }
            if r.contains(f) && f != s.last() {
                let i = choose|i: int| 0 <= i < r.len() && r[i] == f;
                assert(rd[i] == f);
            }
            if f == s.last() && ((f.bytes == 0) == empty) {
                assert(r[r.len() - 1] == f);
            }
        }
        if is_sorted(s) {
            assert forall|i: int, j: int| 0 <= i <= j < r.len() implies key(r[i]) <= key(r[j]) by {
                if j < rd.len() {
                } else if i < rd.len() {
                    assert(rd.contains(rd[i]));
                    let k = choose|k: int| 0 <= k < d.len() && d[k] == rd[i];
                    assert(s[k] == rd[i]);
                }
            }
        }
    }
}

/// Splitting a sorted collection into its empty and its non-empty files
/// gives two sorted collections that share no file and that together hold
/// exactly the files of the collection that was split.
pub proof fn lemma_partition_by_size(s: Seq<FileView>)
    requires
        is_sorted(s),
    ensures
        is_sorted(select_sized(s, true)),
        is_sorted(select_sized(s, false)),
        forall|f: FileView|
            !(#[trigger] select_sized(s, true).contains(f) && select_sized(s, false).contains(f)),
        forall|f: FileView|
            #[trigger] s.contains(f) <==> (select_sized(s, true).contains(f) || select_sized(
                s,
                false,
            ).contains(f)),
{
    lemma_select_sized(s, true);
    lemma_select_sized(s, false);
}

impl IIQCollection {
    /// Builds the files that `infos` describe and sorts them by time (files
    /// with equal times keep their order). Fails if any stem does not start
    /// with a timestamp.
    pub fn new(infos: &Vec<FileInfo>) -> (r: Result<IIQCollection, MatchError>)
        ensures
            r is Ok <==> forall|i: int| 0 <= i < infos@.len() ==> info_parses(#[trigger] infos@[i]),
            r matches Ok(c) ==> c@ == sort_by_time(entities(infos@)) && c.wf(),
            r matches Err(e) ==> e == MatchError::Parse,
    {
        let mut files: Vec<IIQFile> = Vec::new();
        let mut i: usize = 0;
        while i < infos.len()
            invariant
                i <= infos@.len(),
                files@.len() == i,
                forall|j: int| 0 <= j < i ==> info_parses(#[trigger] infos@[j]),
                forall|j: int| 0 <= j < i ==> (#[trigger] files@[j])@ == entity_of(infos@[j]),
                forall|j: int| 0 <= j < i ==> is_stamped(#[trigger] files@[j]@),
            decreases infos@.len() - i,
        {
            match IIQFile::new(&infos[i]) {
                Ok(f) => files.push(f),
                Err(e) => return Err(e),
            }
            i = i + 1;
        }
        proof {
            assert(views(files@) =~= entities(infos@));
        }
        Ok(IIQCollection::from(files))
    }

    pub fn len(&self) -> (r: usize)
        ensures
            r == self@.len(),
    {
        self.files.len()
    }

    /// The file at position `i`.
    pub fn get(&self, i: usize) -> (r: &IIQFile)
        requires
            i < self@.len(),
        ensures
            r@ == self@[i as int],
    {
        &self.files[i]
    }

    /// A copy of this collection.
    pub fn duplicate(&self) -> (r: IIQCollection)
        ensures
            r@ == self@,
    {
        let mut files: Vec<IIQFile> = Vec::new();
        let mut i: usize = 0;
        while i < self.files.len()
            invariant
                i <= self@.len(),
                self@.len() == self.files@.len(),
                files@.len() == i,
                views(files@) == self@.take(i as int),
            decreases self@.len() - i,
        {
            let ghost prev = files@;
            let f = self.files[i].duplicate();
            files.push(f);
            proof {
                assert(self@[i as int] == self.files@[i as int]@);
                assert forall|j: int| 0 <= j < i implies views(files@)[j] == self@[j] by {
                    assert(files@[j] == prev[j]);
                    assert(views(prev)[j] == self@.take(i as int)[j]);
                }
                assert(views(files@)[i as int] == f@);
                assert(views(files@) =~= self@.take(i + 1));
            }
            i = i + 1;
        }
        proof {
            assert(self@.take(i as int) =~= self@);
        }
        IIQCollection { files }
    }

    /// The paths of the files, in order.
    pub fn paths(&self) -> (r: Vec<String>)
        ensures
            r@.len() == self@.len(),
            forall|i: int| 0 <= i < r@.len() ==> (#[trigger] r@[i])@ == self@[i].path,
    {
        let mut out: Vec<String> = Vec::new();
        let mut i: usize = 0;
        while i < self.files.len()
            invariant
                i <= self@.len(),
                out@.len() == i,
                forall|j: int| 0 <= j < i ==> (#[trigger] out@[j])@ == self@[j].path,
            decreases self@.len() - i,
        {
            out.push(self.files[i].path());
            i = i + 1;
        }
        out
    }

    /// The number of empty (zero-byte) files.
    pub fn empty_files_len(&self) -> (r: usize)
        ensures
            r == select_sized(self@, true).len(),
    {
        let mut count: usize = 0;
        let mut i: usize = 0;
        while i < self.files.len()
            invariant
                i <= self@.len(),
                count == select_sized(self@.take(i as int), true).len(),
                count <= i,
            decreases self@.len() - i,
        {
            proof {
                assert(self@.take(i + 1).drop_last() =~= self@.take(i as int));
            }
            if self.files[i].bytes() == 0 {
                count = count + 1;
            }
            i = i + 1;
        }
        proof {
            assert(self@.take(i as int) =~= self@);
        }
        count
    }

    /// Moves the empty files out of this collection into a new one; both keep
    /// the order of time.
    pub fn pop_empty_files(&mut self) -> (r: IIQCollection)
        requires
            old(self).wf(),
        ensures
            r@ == select_sized(old(self)@, true),
            final(self)@ == select_sized(old(self)@, false),
            r.wf(),
            final(self).wf(),
    {
        let ghost orig = self@;
        let mut rest: Vec<IIQFile> = Vec::new();
        std::mem::swap(&mut rest, &mut self.files);
        let mut empty: Vec<IIQFile> = Vec::new();
        let mut kept: Vec<IIQFile> = Vec::new();
        while rest.len() > 0
            invariant
                rest.len() <= orig.len(),
                views(rest@) == orig.skip(orig.len() - rest.len()),
                views(empty@) == select_sized(orig.take(orig.len() - rest.len()), true),
                views(kept@) == select_sized(orig.take(orig.len() - rest.len()), false),
            decreases rest.len(),
        {
            let ghost k = orig.len() - rest.len();
            let ghost before = rest@;
            proof {
                assert(views(before)[0] == orig.skip(k)[0]);
            }
            let f = rest.remove(0);
            proof {
                assert(views(rest@) =~= views(before).skip(1));
                assert(views(rest@) =~= orig.skip(k + 1));
                assert(orig.take(k + 1).drop_last() =~= orig.take(k));
                assert(orig.take(k + 1).last() == f@);
            }
            if f.bytes() == 0 {
                empty.push(f);
                proof {
                    assert(views(empty@) =~= select_sized(orig.take(k + 1), true));
                    assert(views(kept@) =~= select_sized(orig.take(k + 1), false));
                }
            } else {
                kept.push(f);
                proof {
                    assert(views(empty@) =~= select_sized(orig.take(k + 1), true));
                    assert(views(kept@) =~= select_sized(orig.take(k + 1), false));
                }
            }
        }
        proof {
            assert(orig.take(orig.len() as int) =~= orig);
            lemma_select_sized(orig, true);
            lemma_select_sized(orig, false);
            assert forall|i: int| 0 <= i < views(empty@).len() implies is_stamped(
                #[trigger] views(empty@)[i],
            ) by {
                assert(views(empty@).contains(views(empty@)[i]));
            }
            assert forall|i: int| 0 <= i < views(kept@).len() implies is_stamped(
                #[trigger] views(kept@)[i],
            ) by {
                assert(views(kept@).contains(views(kept@)[i]));
            }
        }
        self.files = kept;
        IIQCollection { files: empty }
    }

    /// The position of a file nearest in time to `target` (see `near_le`),
    /// found by binary search; fails on an empty collection.
    pub fn closest_index(&self, target: i64) -> (r: Result<usize, MatchError>)
        requires
            self.wf(),
        ensures
            r is Err <==> self@.len() == 0,
            r matches Err(e) ==> e == MatchError::EmptyCollection,
            r matches Ok(i) ==> is_nearest(self@, i as int, target as int),
    {
        let n = self.files.len();
        if n == 0 {
            return Err(MatchError::EmptyCollection);
        }
        let ghost s = self@;
        let ghost t = target as int;
        let mut low: usize = 0;
        let mut hi: usize = n;
        let mut best: Option<usize> = None;
        let mut best_diff: u64 = 0;
        while low < hi
            invariant
                n == s.len(),
                s == self@,
                is_sorted(s),
                t == target as int,
                low <= hi <= n,
                forall|j: int| 0 <= j < low ==> key(#[trigger] s[j]) < t,
                forall|j: int| hi <= j < n ==> key(#[trigger] s[j]) >= t,
                best is None ==> low == 0 && hi == n,
                best matches Some(b) ==> b < n && best_diff as int == dist(key(s[b as int]), t)
                    && forall|j: int|
                    (0 <= j < low || hi <= j < n) ==> near_le(key(s[b as int]), key(#[trigger] s[j]), t),
            decreases hi - low,
        {
            let mid = low + (hi - low - 1) / 2;
            let k = self.files[mid].instant();
            let diff = abs_diff_millis(k, target);
            if diff == 0 {
                return Ok(mid);
            }
            let ghost old_best = best;
            if best.is_none() || diff < best_diff || (diff == best_diff && k < target) {
                best = Some(mid);
                best_diff = diff;
            }
            proof {
                let b = best->0 as int;
                assert(near_le(key(s[b]), key(s[mid as int]), t));
                if old_best is Some {
                    let ob = old_best->0 as int;
                    assert(near_le(key(s[b]), key(s[ob]), t));
                }
            }
            if k < target {
                proof {
                    assert forall|j: int| low <= j <= mid implies near_le(
                        key(s[mid as int]),
                        key(#[trigger] s[j]),
                        t,
                    ) by {
                        assert(key(s[j]) <= key(s[mid as int]));
                    }
                }
                low = mid + 1;
            } else {
                proof {
                    assert forall|j: int| mid <= j < hi implies near_le(
                        key(s[mid as int]),
                        key(#[trigger] s[j]),
                        t,
                    ) by {
                        assert(key(s[mid as int]) <= key(s[j]));
                    }
                }
                hi = mid;
            }
        }
        match best {
            Some(b) => Ok(b),
            None => Err(MatchError::EmptyCollection),
        }
    }

    /// A file nearest in time to `target`: no file is nearer, and of two at
    /// the same distance the one before `target` is taken. Fails on an empty
    /// collection.
    pub fn get_closest_file_by_datetime(&self, target: &Timestamp) -> (r: Result<
        &IIQFile,
        MatchError,
    >)
        requires
            self.wf(),
        ensures
            r is Err <==> self@.len() == 0,
            r matches Err(e) ==> e == MatchError::EmptyCollection,
            r matches Ok(f) ==> exists|i: int|
                is_nearest(self@, i, target.instant as int) && #[trigger] self@[i] == f@,
    {
        match self.closest_index(target.instant) {
            Ok(i) => {
                proof {
                    assert(self@[i as int] == self.files@[i as int]@);
                }
                Ok(&self.files[i])
            },
            Err(e) => Err(e),
        }
    }
}
} // verus!
