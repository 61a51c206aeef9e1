use crate::ordered::lists;
use crate::ordered::sorted_keys;
use std::collections::BTreeMap;
use vstd::prelude::*;

verus! {

/// The free runs of a heap: start address to length, ordered by start.
///
/// The list may hold runs that touch or overlap until it is coalesced;
/// `insert` and `merge_adjacent_blocks` leave it coalesced.
#[derive(Debug)]
pub struct FreeList {
    pub inner: BTreeMap<usize, usize>,
}

/// The address unit `x` lies in some run.
pub open spec fn run_covers(m: Map<usize, usize>, x: int) -> bool {
    exists|s: usize| #[trigger] m.contains_key(s) && s <= x < s + m[s]
}

/// The boundary point `p` lies in some run, its two ends included.
///
/// Two runs are merged exactly when they have such a point in common, so
/// the points tell an empty run from none and two touching runs from two
/// that leave a gap.
pub open spec fn run_touches(m: Map<usize, usize>, p: int) -> bool {
    exists|s: usize| #[trigger] m.contains_key(s) && s <= p <= s + m[s]
}

/// No two runs overlap or touch: each run is maximal.
pub open spec fn coalesced(m: Map<usize, usize>) -> bool {
    forall|a: usize, b: usize|
        #![trigger m.contains_key(a), m.contains_key(b)]
        m.contains_key(a) && m.contains_key(b) && a < b ==> a + m[a] < b
}

/// No run is empty.
pub open spec fn positive(m: Map<usize, usize>) -> bool {
    forall|a: usize| #[trigger] m.contains_key(a) ==> m[a] >= 1
}

/// Every run ends inside the machine's address space.
pub open spec fn fits(m: Map<usize, usize>) -> bool {
    forall|a: usize| #[trigger] m.contains_key(a) ==> a + m[a] <= usize::MAX
}

/// The map that inserting the blocks one after the other leaves: of two
/// blocks with one start the later one stays.
pub open spec fn blocks_map(blocks: Seq<(usize, usize)>) -> Map<usize, usize>
    decreases blocks.len(),
{
    if blocks.len() == 0 {
        Map::empty()
    } else {
        blocks_map(blocks.drop_last()).insert(blocks.last().0, blocks.last().1)
    }
}

/// `entries` holds the runs of `m`, each once, smallest start first.
pub open spec fn entries_of(entries: Seq<(usize, usize)>, m: Map<usize, usize>) -> bool {
    &&& lists(entries.map_values(|e: (usize, usize)| e.0), m.dom())
    &&& forall|i: int| 0 <= i < entries.len() ==> (#[trigger] entries[i]).1 == m[entries[i].0]
}

/// The sum of the lengths of the runs that start below `limit`.
pub open spec fn total_below(m: Map<usize, usize>, limit: int) -> int
    decreases limit,
{
    if limit <= 0 {
        0
    } else {
        total_below(m, limit - 1) + if m.contains_key((limit - 1) as usize) {
            m[(limit - 1) as usize] as int
        } else {
            0
        }
    }
}

/// The sum of the lengths of all runs.
pub open spec fn total(m: Map<usize, usize>) -> int {
    total_below(m, usize::MAX as int + 1)
}

/// `m` after the run at `k` was merged into the run at `cur`.
pub open spec fn absorbed(m: Map<usize, usize>, cur: usize, k: usize) -> Map<usize, usize> {
    let end = if k + m[k] > cur + m[cur] {
        k + m[k]
    } else {
        cur + m[cur]
    };
    m.insert(cur, (end - cur) as usize).remove(k)
}

proof fn lemma_absorbed(m: Map<usize, usize>, cur: usize, k: usize)
    requires
        fits(m),
        m.contains_key(cur),
        m.contains_key(k),
        cur < k <= cur + m[cur],
    ensures
        fits(absorbed(m, cur, k)),
        forall|x: int| run_covers(absorbed(m, cur, k), x) <==> run_covers(m, x),
        forall|p: int| run_touches(absorbed(m, cur, k), p) <==> run_touches(m, p),
{
    let m2 = absorbed(m, cur, k);
    assert(m2.contains_key(cur));
    assert forall|x: int| run_covers(m2, x) <==> run_covers(m, x) by {
        if run_covers(m2, x) {
            let s = choose|s: usize| #[trigger] m2.contains_key(s) && s <= x < s + m2[s];
            if s == cur {
                if x < cur + m[cur] {
                    assert(m.contains_key(cur) && cur <= x < cur + m[cur]);
                } else {
                    assert(m.contains_key(k) && k <= x < k + m[k]);
                }
            } else {
                assert(m.contains_key(s) && s <= x < s + m[s]);
            }
        }
        if run_covers(m, x) {
            let s = choose|s: usize| #[trigger] m.contains_key(s) && s <= x < s + m[s];
            if s == cur || s == k {
                assert(m2.contains_key(cur) && cur <= x < cur + m2[cur]);
            } else {
                assert(m2.contains_key(s) && s <= x < s + m2[s]);
            }
        }
    }
    assert forall|p: int| run_touches(m2, p) <==> run_touches(m, p) by {
        if run_touches(m2, p) {
            let s = choose|s: usize| #[trigger] m2.contains_key(s) && s <= p <= s + m2[s];
            if s == cur {
                if p <= cur + m[cur] {
                    assert(m.contains_key(cur) && cur <= p <= cur + m[cur]);
                } else {
                    assert(m.contains_key(k) && k <= p <= k + m[k]);
                }
            } else {
                assert(m.contains_key(s) && s <= p <= s + m[s]);
            }
        }
        if run_touches(m, p) {
            let s = choose|s: usize| #[trigger] m.contains_key(s) && s <= p <= s + m[s];
            if s == cur || s == k {
                assert(m2.contains_key(cur) && cur <= p <= cur + m2[cur]);
            } else {
                assert(m2.contains_key(s) && s <= p <= s + m2[s]);
            }
        }
    }
}

/// What `insert` does to the cells and points of a list before it merges.
proof fn lemma_enlarged(m: Map<usize, usize>, start: usize, size: usize, kept: usize)
    requires
        fits(m),
        start + size <= usize::MAX,
        kept == if m.contains_key(start) && m[start] > size {
            m[start]
        } else {
            size
        },
    ensures
        fits(m.insert(start, kept)),
        forall|x: int|
            run_covers(m.insert(start, kept), x) <==> run_covers(m, x) || (start <= x < start
                + size),
        forall|p: int|
            run_touches(m.insert(start, kept), p) <==> run_touches(m, p) || (start <= p <= start
                + size),
{
    let m2 = m.insert(start, kept);
    assert(m2.contains_key(start));
    assert forall|x: int| run_covers(m2, x)
        <==> run_covers(m, x) || (start <= x < start + size) by {
        if run_covers(m2, x) {
            let s = choose|s: usize| #[trigger] m2.contains_key(s) && s <= x < s + m2[s];
            if s == start {
                if !(x < start + size) {
                    assert(m.contains_key(start) && start <= x < start + m[start]);
                }
            } else {
                assert(m.contains_key(s) && s <= x < s + m[s]);
            }
        }
        if run_covers(m, x) {
            let s = choose|s: usize| #[trigger] m.contains_key(s) && s <= x < s + m[s];
            if s == start {
                assert(m2.contains_key(start) && start <= x < start + m2[start]);
            } else {
                assert(m2.contains_key(s) && s <= x < s + m2[s]);
            }
        }
        if start <= x < start + size {
            assert(m2.contains_key(start) && start <= x < start + m2[start]);
        }
    }
    assert forall|p: int| run_touches(m2, p) <==> run_touches(m, p) || start <= p <= start
        + size by {
        if run_touches(m2, p) {
            let s = choose|s: usize| #[trigger] m2.contains_key(s) && s <= p <= s + m2[s];
            if s == start {
                if !(p <= start + size) {
                    assert(m.contains_key(start) && start <= p <= start + m[start]);
                }
            } else {
                assert(m.contains_key(s) && s <= p <= s + m[s]);
            }
        }
        if run_touches(m, p) {
            let s = choose|s: usize| #[trigger] m.contains_key(s) && s <= p <= s + m[s];
            if s == start {
                assert(m2.contains_key(start) && start <= p <= start + m2[start]);
            } else {
                assert(m2.contains_key(s) && s <= p <= s + m2[s]);
            }
        }
        if start <= p <= start + size {
            assert(m2.contains_key(start) && start <= p <= start + m2[start]);
        }
    }
}

/// In a coalesced list a cell lies in one run only, so taking a run out
/// frees exactly its cells, and the points of the other runs stay.
pub proof fn lemma_removed_run(m: Map<usize, usize>, start: usize)
    requires
        coalesced(m),
        m.contains_key(start),
    ensures
        coalesced(m.remove(start)),
        forall|x: int|
            run_covers(m.remove(start), x) <==> run_covers(m, x) && !(start <= x < start
                + m[start]),
        forall|p: int|
            run_touches(m.remove(start), p) ==> run_touches(m, p) && !(start <= p <= start
                + m[start]),
{
    let m2 = m.remove(start);
    assert forall|x: int|
        run_covers(m2, x) <==> run_covers(m, x) && !(start <= x < start + m[start]) by {
        if run_covers(m2, x) {
            let s = choose|s: usize| #[trigger] m2.contains_key(s) && s <= x < s + m2[s];
            assert(m.contains_key(s) && s <= x < s + m[s]);
        }
        if run_covers(m, x) && !(start <= x < start + m[start]) {
            let s = choose|s: usize| #[trigger] m.contains_key(s) && s <= x < s + m[s];
            assert(m2.contains_key(s) && s <= x < s + m2[s]);
        }
    }
    assert forall|p: int| run_touches(m2, p) implies run_touches(m, p) && !(start <= p <= start
        + m[start]) by {
        let s = choose|s: usize| #[trigger] m2.contains_key(s) && s <= p <= s + m2[s];
        assert(m.contains_key(s) && s <= p <= s + m[s]);
    }
}

/// In a coalesced list every start of a run of another coalesced list
/// with the same cells and points is the start of a run.
proof fn lemma_coalesced_start(m1: Map<usize, usize>, m2: Map<usize, usize>, k: usize)
    requires
        coalesced(m1),
        coalesced(m2),
        forall|x: int| run_covers(m1, x) <==> run_covers(m2, x),
        forall|p: int| run_touches(m1, p) <==> run_touches(m2, p),
        m1.contains_key(k),
    ensures
        m2.contains_key(k),
{
    assert(m1.contains_key(k) && k <= k <= k + m1[k]);
    assert(run_touches(m1, k as int));
    let s2 = choose|s: usize| #[trigger] m2.contains_key(s) && s <= k <= s + m2[s];
    if s2 != k {
        assert(m2.contains_key(s2) && s2 <= s2 <= s2 + m2[s2]);
        assert(run_touches(m2, s2 as int));
        let s1 = choose|s: usize| #[trigger] m1.contains_key(s) && s <= s2 <= s + m1[s];
        assert(m1.contains_key(s1) && m1.contains_key(k));
        let e1 = s1 + m1[s1];
        assert(m2.contains_key(s2) && s2 <= e1 < s2 + m2[s2]);
        assert(run_covers(m2, e1));
        let t = choose|t: usize| #[trigger] m1.contains_key(t) && t <= e1 < t + m1[t];
        assert(m1.contains_key(t) && m1.contains_key(s1));
        assert(false);
    }
}

/// In two coalesced lists with the same cells a run that starts in both
/// is no longer in the one than in the other.
proof fn lemma_coalesced_length(m1: Map<usize, usize>, m2: Map<usize, usize>, k: usize)
    requires
        coalesced(m1),
        forall|x: int| run_covers(m1, x) <==> run_covers(m2, x),
        m1.contains_key(k),
        m2.contains_key(k),
    ensures
        m2[k] <= m1[k],
{
    if m1[k] < m2[k] {
        let c = k + m1[k];
        assert(m2.contains_key(k) && k <= c < k + m2[k]);
        assert(run_covers(m2, c));
        let t = choose|t: usize| #[trigger] m1.contains_key(t) && t <= c < t + m1[t];
        assert(m1.contains_key(t) && m1.contains_key(k));
        assert(false);
    }
}

/// A coalesced list is determined by its cells and its points: two
/// coalesced lists that cover the same cells and touch the same points
/// are one list.
pub proof fn lemma_coalesced_unique(m1: Map<usize, usize>, m2: Map<usize, usize>)
    requires
        coalesced(m1),
        coalesced(m2),
        forall|x: int| run_covers(m1, x) <==> run_covers(m2, x),
        forall|p: int| run_touches(m1, p) <==> run_touches(m2, p),
    ensures
        m1 == m2,
{
    assert forall|k: usize| m1.contains_key(k) <==> m2.contains_key(k) by {
        if m1.contains_key(k) {
            lemma_coalesced_start(m1, m2, k);
        }
        if m2.contains_key(k) {
            lemma_coalesced_start(m2, m1, k);
        }
    }
    assert forall|k: usize| m1.contains_key(k) implies m1[k] == m2[k] by {
        lemma_coalesced_length(m1, m2, k);
        lemma_coalesced_length(m2, m1, k);
    }
    assert(m1 =~= m2);
}

/// In a list without empty runs a point is touched where the cell at
/// it or the cell before it is covered.
pub proof fn lemma_positive_points(m: Map<usize, usize>, p: int)
    requires
        positive(m),
    ensures
        run_touches(m, p) <==> run_covers(m, p) || run_covers(m, p - 1),
{
    if run_touches(m, p) {
        let s = choose|s: usize| #[trigger] m.contains_key(s) && s <= p <= s + m[s];
        if p < s + m[s] {
            assert(m.contains_key(s) && s <= p < s + m[s]);
        } else {
            assert(m.contains_key(s) && s <= p - 1 < s + m[s]);
        }
    }
    if run_covers(m, p) {
        let s = choose|s: usize| #[trigger] m.contains_key(s) && s <= p < s + m[s];
        assert(m.contains_key(s) && s <= p <= s + m[s]);
    }
    if run_covers(m, p - 1) {
        let s = choose|s: usize| #[trigger] m.contains_key(s) && s <= p - 1 < s + m[s];
        assert(m.contains_key(s) && s <= p <= s + m[s]);
    }
}

/// Two coalesced lists without empty runs that cover the same cells are one list.
pub proof fn lemma_cells_unique(m1: Map<usize, usize>, m2: Map<usize, usize>)
    requires
        coalesced(m1),
        coalesced(m2),
        positive(m1),
        positive(m2),
        forall|x: int| run_covers(m1, x) <==> run_covers(m2, x),
    ensures
        m1 == m2,
{
    assert forall|p: int| run_touches(m1, p) <==> run_touches(m2, p) by {
        lemma_positive_points(m1, p);
        lemma_positive_points(m2, p);
    }
    lemma_coalesced_unique(m1, m2);
}

/// The run at `s` holds the `len` cells from `lo` on.
pub open spec fn holds_range(m: Map<usize, usize>, s: usize, lo: int, len: int) -> bool {
    m.contains_key(s) && s <= lo && lo + len <= s + m[s]
}

/// In a coalesced list a range of cells that are all free lies in one run.
pub proof fn lemma_free_range_in_run(m: Map<usize, usize>, lo: int, len: int)
    requires
        coalesced(m),
        0 < len,
        forall|x: int| lo <= x < lo + len ==> run_covers(m, x),
    ensures
        exists|s: usize| holds_range(m, s, lo, len),
{
    let hi = lo + len;
    assert(run_covers(m, lo));
    let s = choose|s: usize| #[trigger] m.contains_key(s) && s <= lo < s + m[s];
    if s + m[s] < hi {
        assert(run_covers(m, s + m[s]));
        let t = choose|t: usize| #[trigger] m.contains_key(t) && t <= s + m[s] < t + m[t];
        assert(m.contains_key(s) && m.contains_key(t));
        assert(false);
    }
    assert(holds_range(m, s, lo, len));
}

/// The runs that start below `limit` are the runs below `from`, if no run
/// starts in between.
pub proof fn lemma_total_gap(m: Map<usize, usize>, from: int, limit: int)
    requires
        0 <= from <= limit <= usize::MAX + 1,
        forall|k: usize| m.contains_key(k) ==> !(from <= k < limit),
    ensures
        total_below(m, limit) == total_below(m, from),
    decreases limit - from,
{
    if from < limit {
        lemma_total_gap(m, from, limit - 1);
    }
}

/// The sum grows with the limit.
pub proof fn lemma_total_grows(m: Map<usize, usize>, from: int, limit: int)
    requires
        0 <= from <= limit <= usize::MAX + 1,
    ensures
        total_below(m, from) <= total_below(m, limit),
    decreases limit - from,
{
    if from < limit {
        lemma_total_grows(m, from, limit - 1);
    }
}

impl View for FreeList {
    type V = Map<usize, usize>;

    open spec fn view(&self) -> Map<usize, usize> {
        self.inner@
    }
}

impl Clone for FreeList {
    fn clone(&self) -> (copy: Self)
        ensures
            copy@ == self@,
    {
        FreeList { inner: self.inner.clone() }
    }
}

/// A walk over the runs of a free list, smallest start first.
pub struct FreeListIter {
    entries: Vec<(usize, usize)>,
    at: usize,
}

impl FreeListIter {
    /// The runs that are still to come.
    pub closed spec fn remaining(&self) -> Seq<(usize, usize)> {
        if self.at <= self.entries@.len() {
            self.entries@.skip(self.at as int)
        } else {
            Seq::empty()
        }
    }

    /// The next run, or `None` at the end.
    pub fn next(&mut self) -> (run: Option<(usize, usize)>)
        ensures
            match run {
                Some(r) => old(self).remaining().len() > 0 && r == old(self).remaining()[0]
                    && final(self).remaining() == old(self).remaining().drop_first(),
                None => old(self).remaining().len() == 0 && final(self).remaining().len() == 0,
            },
    {
        if self.at < self.entries.len() {
            let run = self.entries[self.at];
            self.at = self.at + 1;
            assert(self.remaining() =~= old(self).remaining().drop_first());
            Some(run)
        } else {
            None
        }
    }
}

impl FreeList {
    /// A list of the given blocks. Of two blocks with one start the later
    /// one stays; nothing is merged.
    pub fn new(blocks: Vec<(usize, usize)>) -> (list: Self)
        ensures
            list@ == blocks_map(blocks@),
    {
        let mut inner: BTreeMap<usize, usize> = BTreeMap::new();
        let mut i: usize = 0;
        while i < blocks.len()
            invariant
                i <= blocks.len(),
                inner@ == blocks_map(blocks@.take(i as int)),
            decreases blocks.len() - i,
        {
            let (start, size) = blocks[i];
            inner.insert(start, size);
            proof {
                assert(blocks@.take(i + 1).drop_last() =~= blocks@.take(i as int));
            }
            i += 1;
        }
        assert(blocks@.take(i as int) =~= blocks@);
        Self { inner }
    }

    /// The runs, smallest start first.
    pub fn iter(&self) -> (walk: FreeListIter)
        ensures
            entries_of(walk.remaining(), self@),
            walk.remaining().len() == self@.dom().len(),
    {
        let entries = self.to_vec();
        assert(entries@.skip(0) =~= entries@);
        FreeListIter { entries, at: 0 }
    }

    /// Adds a run and merges what touches or overlaps.
    ///
    /// Where a run with this start exists, the longer of the two stays.
    /// Afterwards the list is coalesced; the cells and points of the new
    /// run have joined those of the old list.
    pub fn insert(&mut self, start: usize, size: usize)
        requires
            fits(old(self)@),
            start + size <= usize::MAX,
        ensures
            coalesced(final(self)@),
            fits(final(self)@),
            forall|x: int|
                run_covers(final(self)@, x)
                    <==> run_covers(old(self)@, x) || (start <= x < start + size),
            forall|p: int|
                run_touches(final(self)@, p)
                    <==> run_touches(old(self)@, p) || (start <= p <= start + size),
            positive(old(self)@) && size >= 1 ==> positive(final(self)@),
    {
        let ghost m = self@;
        let kept: usize = match self.inner.get(&start) {
            Some(len) => if *len > size {
                *len
            } else {
                size
            },
            None => size,
        };
        self.inner.insert(start, kept);
        let ghost m2 = self@;
        proof {
            lemma_enlarged(m, start, size, kept);
            assert(m2 == m.insert(start, kept));
            assert(forall|p: int|
                run_touches(m2, p) <==> run_touches(m, p) || (start <= p <= start + size));
            assert(forall|x: int|
                run_covers(m2, x) <==> run_covers(m, x) || (start <= x < start + size));
        }
        self.merge_adjacent_blocks();
        assert forall|x: int| run_covers(self@, x)
            <==> run_covers(m, x) || (start <= x < start + size) by {
            assert(run_covers(self@, x) <==> run_covers(m2, x));
            assert(run_covers(m2, x) <==> run_covers(m, x) || (start <= x < start + size));
        }
        assert forall|p: int| run_touches(self@, p)
            <==> run_touches(m, p) || (start <= p <= start + size) by {
            assert(run_touches(self@, p) <==> run_touches(m2, p));
            assert(run_touches(m2, p) <==> run_touches(m, p) || (start <= p <= start + size));
        }
    }

    /// Removes the run that starts at `start`, if there is one.
    pub fn remove(&mut self, start: usize)
        ensures
            final(self)@ == old(self)@.remove(start),
    {
        self.inner.remove(&start);
    }

    /// Merges the runs that touch or overlap: two runs `a` before `b` with
    /// `a.start + a.size >= b.start` become one from `a.start` to the later
    /// of the two ends.
    ///
    /// The same cells are free afterwards and the same points are touched,
    /// and no two runs are left that could be merged.
    pub fn merge_adjacent_blocks(&mut self)
        requires
            fits(old(self)@),
        ensures
            coalesced(final(self)@),
            fits(final(self)@),
            final(self)@.dom().subset_of(old(self)@.dom()),
            forall|x: int| run_covers(final(self)@, x) <==> run_covers(old(self)@, x),
            forall|p: int| run_touches(final(self)@, p) <==> run_touches(old(self)@, p),
            coalesced(old(self)@) ==> final(self)@ == old(self)@,
            positive(old(self)@) ==> positive(final(self)@),
    {
        self.merge_runs();
        proof {
            if coalesced(old(self)@) {
                lemma_coalesced_unique(self@, old(self)@);
            }
        }
    }

    /// The merging of `merge_adjacent_blocks`.
    fn merge_runs(&mut self)
        requires
            fits(old(self)@),
        ensures
            coalesced(final(self)@),
            fits(final(self)@),
            final(self)@.dom().subset_of(old(self)@.dom()),
            forall|x: int| run_covers(final(self)@, x) <==> run_covers(old(self)@, x),
            forall|p: int| run_touches(final(self)@, p) <==> run_touches(old(self)@, p),
            positive(old(self)@) ==> positive(final(self)@),
    {
        let keys = sorted_keys(&self.inner);
        let n = keys.len();
        if n == 0 {
            assert forall|a: usize| !self@.contains_key(a) by {
                assert(!keys@.contains(a));
            }
            return ;
        }
        let ghost m0 = self.inner@;
        let mut cur: usize = keys[0];
        let mut i: usize = 1;
        assert(keys@.contains(keys@[0]));
        while i < n
            invariant
                n == keys.len(),
                1 <= i <= n,
                lists(keys@, m0.dom()),
                fits(self.inner@),
                self.inner@.dom().subset_of(m0.dom()),
                self.inner@.contains_key(cur),
                i < n ==> cur < keys[i as int],
                forall|j: int| i <= j < n ==> self.inner@.contains_key(#[trigger] keys[j]),
                forall|k: usize| #[trigger]
                    self.inner@.contains_key(k) ==> k <= cur || (i < n && k >= keys[i as int]),
                forall|a: usize, b: usize|
                    #![trigger self.inner@.contains_key(a), self.inner@.contains_key(b)]
                    self.inner@.contains_key(a) && self.inner@.contains_key(b) && a < b && b
                        <= cur ==> a + self.inner@[a] < b,
                forall|x: int| run_covers(self.inner@, x) <==> run_covers(m0, x),
                forall|p: int| run_touches(self.inner@, p) <==> run_touches(m0, p),
                positive(m0) ==> positive(self.inner@),
            decreases n - i,
        {
            let k = keys[i];
            let ghost m = self.inner@;
            assert(m.contains_key(keys[i as int]));
            let cur_len: usize = *self.inner.get(&cur).unwrap();
            let len: usize = *self.inner.get(&k).unwrap();
            let cur_end: usize = cur + cur_len;
            if k <= cur_end {
                let end: usize = if k + len > cur_end {
                    k + len
                } else {
                    cur_end
                };
                proof {
                    lemma_absorbed(m, cur, k);
                }
                self.inner.insert(cur, end - cur);
                self.inner.remove(&k);
                assert(self.inner@ == absorbed(m, cur, k));
            } else {
                cur = k;
            }
            proof {
                let m2 = self.inner@;
                assert forall|j: int| i + 1 <= j < n implies m2.contains_key(
                    #[trigger] keys[j],
                ) by {
                    assert(m.contains_key(keys[j]));
                    assert(keys[i as int] < keys[j]);
                }
                assert forall|k2: usize| #[trigger] m2.contains_key(k2) implies k2 <= cur || (i
                    + 1 < n && k2 >= keys[i + 1]) by {
                    assert(m.contains_key(k2));
                    if k2 > cur {
                        assert(m0.dom().contains(k2));
                        assert(keys@.contains(k2));
                        let j = choose|j: int| 0 <= j < keys@.len() && keys@[j] == k2;
                        if j <= i {
                            assert(keys[j] <= keys[i as int]);
                        }
                    }
                }
            }
            i += 1;
        }
    }

    /// The runs, smallest start first.
    pub fn to_vec(&self) -> (entries: Vec<(usize, usize)>)
        ensures
            entries_of(entries@, self@),
            entries@.len() == self@.dom().len(),
    {
        let keys = sorted_keys(&self.inner);
        let mut entries: Vec<(usize, usize)> = Vec::new();
        let mut i: usize = 0;
        while i < keys.len()
            invariant
                i <= keys.len(),
                lists(keys@, self@.dom()),
                entries@.len() == i,
                forall|j: int|
                    0 <= j < i ==> (#[trigger] entries@[j]).0 == keys@[j] && entries@[j].1
                        == self@[keys@[j]],
            decreases keys.len() - i,
        {
            let k = keys[i];
            assert(keys@.contains(keys@[i as int]));
            let len: usize = *self.inner.get(&k).unwrap();
            entries.push((k, len));
            i += 1;
        }
        assert(entries@.map_values(|e: (usize, usize)| e.0) =~= keys@);
        entries
    }

    /// A run that holds all the cells from `start` up to `start + size`,
    /// if there is one.
    pub fn run_holding(&self, start: usize, size: usize) -> (run: Option<(usize, usize)>)
        requires
            fits(self@),
            start + size <= usize::MAX,
        ensures
            match run {
                Some((s, len)) => holds_range(self@, s, start as int, size as int) && len
                    == self@[s],
                None => forall|s: usize| !holds_range(self@, s, start as int, size as int),
            },
    {
        let entries = self.to_vec();
        let ghost starts = entries@.map_values(|e: (usize, usize)| e.0);
        let mut i: usize = 0;
        while i < entries.len()
            invariant
                i <= entries.len(),
                fits(self@),
                start + size <= usize::MAX,
                starts == entries@.map_values(|e: (usize, usize)| e.0),
                entries_of(entries@, self@),
                forall|j: int|
                    0 <= j < i ==> !holds_range(
                        self@,
                        (#[trigger] entries@[j]).0,
                        start as int,
                        size as int,
                    ),
            decreases entries.len() - i,
        {
            let (s, len) = entries[i];
            proof {
                assert(starts[i as int] == s);
                assert(starts.contains(s));
            }
            if s <= start && start + size <= s + len {
                return Some((s, len));
            }
            i += 1;
        }
        proof {
            assert forall|s: usize| !holds_range(self@, s, start as int, size as int) by {
                if self@.contains_key(s) {
                    assert(starts.contains(s));
                    let j = choose|j: int| 0 <= j < starts.len() && starts[j] == s;
                    assert(entries@[j].0 == s);
                }
            }
        }
        None
    }

    /// Takes the cells from `start` up to `end` out of the block that is
    /// given by its start and size: the block leaves the list, and what is
    /// left of it before `start` and from `end` on is inserted again.
    pub fn carve(&mut self, block_start: usize, block_size: usize, start: usize, end: usize)
        requires
            fits(old(self)@),
            block_start <= start,
            end <= block_start + block_size <= usize::MAX,
        ensures
            fits(final(self)@),
            start == block_start && end == block_start + block_size
                ==> final(self)@ == old(self)@.remove(block_start),
            start > block_start || end < block_start + block_size ==> coalesced(final(self)@),
            coalesced(old(self)@) ==> coalesced(final(self)@),
            positive(old(self)@) ==> positive(final(self)@),
            forall|x: int|
                run_covers(final(self)@, x) <==> run_covers(old(self)@.remove(block_start), x)
                    || (block_start <= x < start) || (end <= x < block_start + block_size),
            forall|p: int|
                run_touches(final(self)@, p) <==> run_touches(old(self)@.remove(block_start), p)
                    || (block_start < start && block_start <= p <= start) || (end < block_start
                    + block_size && end <= p <= block_start + block_size),
    {
        self.remove(block_start);
        let before: usize = start - block_start;
        let after: usize = block_start + block_size - end;
        if before > 0 {
            self.insert(block_start, before);
        }
        if after > 0 {
            self.insert(end, after);
        }
    }
}

} // verus!
