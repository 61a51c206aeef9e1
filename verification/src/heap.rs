use crate::error::VMError;
use crate::free_list::coalesced;
use crate::free_list::fits;
use crate::free_list::positive;
use crate::free_list::lemma_removed_run;
use crate::free_list::lemma_total_gap;
use crate::free_list::run_covers;
use crate::free_list::run_touches;
use crate::free_list::total;
use crate::free_list::total_below;
use crate::free_list::FreeList;
use crate::object::ObjAddr;
use crate::object::Object;
use crate::object::ObjectView;
use crate::ordered::greatest_at_most;
use crate::ordered::lists;
use crate::ordered::sorted_keys;
use std::collections::BTreeMap;
use std::collections::BTreeSet;
use vstd::prelude::*;

verus! {

/// What a cell of the displayed memory shows.
#[derive(Clone, Copy, Debug, PartialEq, Eq, Structural)]
pub enum CellStatus {
    Free,
    Allocated,
    Marked,
    Used,
    ToBeFreed,
}

/// One cell of the displayed memory. The cells are for display only: what
/// is allocated and what is free is decided by the objects and the free list.
#[derive(Clone, Copy, Debug, PartialEq, Eq, Structural)]
pub struct MemoryCell {
    pub status: CellStatus,
}

impl MemoryCell {
    /// A cell that shows `status`.
    pub fn new(status: CellStatus) -> (cell: Self)
        ensures
            cell.status == status,
    {
        MemoryCell { status }
    }

    /// A cell that shows that it is free.
    pub fn free() -> (cell: Self)
        ensures
            cell.status == CellStatus::Free,
    {
        MemoryCell { status: CellStatus::Free }
    }
}

/// The heap: a bounded address space with the objects that live in it, the
/// roots among them, and the free runs between them.
#[derive(Debug)]
pub struct Heap {
    pub roots: BTreeSet<ObjAddr>,
    pub objects: BTreeMap<ObjAddr, Object>,
    pub free_list: FreeList,
    pub memory: Vec<MemoryCell>,
    /// Every allocation starts at a multiple of this; 0 asks for nothing.
    pub alignment: usize,
}

/// A heap as a mathematical value.
pub struct HeapView {
    pub objects: Map<usize, ObjectView>,
    pub roots: Set<usize>,
    pub free: Map<usize, usize>,
    pub cells: Seq<MemoryCell>,
    pub alignment: usize,
}

/// The objects of a map, each as a mathematical value.
pub open spec fn object_views(m: Map<usize, Object>) -> Map<usize, ObjectView> {
    Map::new(|a: usize| m.contains_key(a), |a: usize| m[a]@)
}

/// The views of the objects after one was inserted.
pub proof fn lemma_views_insert(m: Map<usize, Object>, a: usize, o: Object)
    ensures
        object_views(m.insert(a, o)) == object_views(m).insert(a, o@),
{
    assert(object_views(m.insert(a, o)) =~= object_views(m).insert(a, o@));
}

/// The views of the objects after one was removed.
pub proof fn lemma_views_remove(m: Map<usize, Object>, a: usize)
    ensures
        object_views(m.remove(a)) == object_views(m).remove(a),
{
    assert(object_views(m.remove(a)) =~= object_views(m).remove(a));
}

/// `addr` is a multiple of `alignment`, where that is not 0.
pub open spec fn aligned(addr: usize, alignment: usize) -> bool {
    alignment > 0 ==> addr % alignment == 0
}

/// `x` rounded up to the next multiple of `alignment`; `x` itself where
/// the alignment is 0.
pub open spec fn align_up(x: int, alignment: int) -> int {
    if alignment <= 0 {
        x
    } else {
        x + ((alignment - x % alignment) % alignment)
    }
}

/// The rounded address is the first multiple of the alignment from `x` on.
pub proof fn lemma_align_up(x: int, alignment: int)
    requires
        0 <= x,
        0 < alignment,
    ensures
        x <= align_up(x, alignment) < x + alignment,
        align_up(x, alignment) % alignment == 0,
        x % alignment == 0 ==> align_up(x, alignment) == x,
{
    let r = x % alignment;
    let q = x / alignment;
    vstd::arithmetic::div_mod::lemma_fundamental_div_mod(x, alignment);
    vstd::arithmetic::div_mod::lemma_mod_pos_bound(x, alignment);
    if r == 0 {
        vstd::arithmetic::div_mod::lemma_mod_self_0(alignment);
    } else {
        vstd::arithmetic::div_mod::lemma_small_mod((alignment - r) as nat, alignment as nat);
        assert(align_up(x, alignment) == alignment * q + alignment);
        assert(alignment * q + alignment == alignment * (q + 1)) by (nonlinear_arith);
        vstd::arithmetic::div_mod::lemma_mod_multiples_basic(q + 1, alignment);
        assert(alignment * (q + 1) == (q + 1) * alignment) by (nonlinear_arith);
    }
}

impl HeapView {
    /// The number of address units of the heap.
    pub open spec fn size(self) -> int {
        self.cells.len() as int
    }

    /// The address unit `x` belongs to some object.
    pub open spec fn in_object(self, x: int) -> bool {
        exists|b: usize| #[trigger]
            self.objects.contains_key(b) && b <= x < b + self.objects[b].fields.len()
    }

    /// `base` is the greatest object base that is at most `addr`.
    pub open spec fn base_below(self, addr: usize, base: usize) -> bool {
        &&& self.objects.contains_key(base)
        &&& base <= addr
        &&& forall|k: usize| #[trigger] self.objects.contains_key(k) && k <= addr ==> k <= base
    }

    /// `addr` is a field of the object at `base`: `base` is the greatest
    /// object base at most `addr`, and `addr` lies within its fields.
    pub open spec fn holds(self, base: usize, addr: usize) -> bool {
        &&& self.base_below(addr, base)
        &&& addr < base + self.objects[base].fields.len()
    }

    /// The cells that the object at `from` would take at `to` are all
    /// free, or its own.
    pub open spec fn room_at(self, from: usize, to: usize) -> bool {
        forall|x: int|
            to <= x < to + self.objects[from].fields.len() ==> run_covers(self.free, x) || in_span(
                self,
                from,
                x,
            )
    }

    /// Nothing reaches beyond the machine's address space.
    pub open spec fn fits(self) -> bool {
        &&& fits(self.free)
        &&& forall|b: usize| #[trigger]
            self.objects.contains_key(b) ==> b + self.objects[b].fields.len() <= usize::MAX
    }

    /// Every object has a field, lies within the heap at an aligned
    /// address, and ends where the next one starts, or before.
    pub open spec fn objects_sound(self) -> bool {
        &&& forall|b: usize| #[trigger]
            self.objects.contains_key(b) ==> self.objects[b].fields.len() >= 1 && b
                + self.objects[b].fields.len() <= self.size() && aligned(b, self.alignment)
        &&& forall|a: usize, b: usize|
            #![trigger self.objects.contains_key(a), self.objects.contains_key(b)]
            self.objects.contains_key(a) && self.objects.contains_key(b) && a < b ==> a
                + self.objects[a].fields.len() <= b
    }

    /// Every free run is maximal, not empty, and within the heap.
    pub open spec fn runs_sound(self) -> bool {
        &&& coalesced(self.free)
        &&& positive(self.free)
        &&& forall|p: int| run_touches(self.free, p) ==> p <= self.size()
    }

    /// Each address unit of the heap is either free or part of an object.
    pub open spec fn tiled(self) -> bool {
        forall|x: int| 0 <= x < self.size() ==> (run_covers(self.free, x) <==> !self.in_object(x))
    }

    /// The layout is sound: the free runs are maximal and not empty, the objects start
    /// at aligned addresses and do not overlap, each address unit of the
    /// heap is either free or part of one object, and every root is an
    /// object.
    pub open spec fn shaped(self) -> bool {
        &&& self.size() <= usize::MAX
        &&& coalesced(self.free)
        &&& positive(self.free)
        &&& forall|p: int| run_touches(self.free, p) ==> p <= self.size()
        &&& forall|b: usize| #[trigger]
            self.objects.contains_key(b) ==> self.objects[b].fields.len() >= 1 && b
                + self.objects[b].fields.len() <= self.size() && aligned(b, self.alignment)
        &&& forall|a: usize, b: usize|
            #![trigger self.objects.contains_key(a), self.objects.contains_key(b)]
            self.objects.contains_key(a) && self.objects.contains_key(b) && a < b ==> a
                + self.objects[a].fields.len() <= b
        &&& forall|x: int| 0 <= x < self.size()
            ==> (run_covers(self.free, x) <==> !self.in_object(x))
        &&& self.roots.subset_of(self.objects.dom())
    }

    /// No object is marked or forwarded: no collection is under way.
    pub open spec fn clean(self) -> bool {
        forall|b: usize| #[trigger]
            self.objects.contains_key(b) ==> !self.objects[b].marked
                && self.objects[b].fwd_addr is None
    }

    /// The heap is as it should be between two instructions.
    pub open spec fn wf(self) -> bool {
        self.shaped() && self.clean()
    }
}

/// What holds of a heap between two instructions, spelled out: the free
/// runs are in the order of their starts, and no two of them overlap or
/// touch; the sizes of the objects and the lengths of the free runs add
/// up to the size of the heap; every root is an object; no object is
/// marked or forwarded; every object starts at an aligned address.
pub proof fn lemma_invariants(h: HeapView)
    requires
        h.wf(),
    ensures
        forall|a: usize, b: usize|
            #![trigger h.free.contains_key(a), h.free.contains_key(b)]
            h.free.contains_key(a) && h.free.contains_key(b) && a < b ==> a + h.free[a] < b,
        sizes_total(h.objects) + total(h.free) == h.size(),
        forall|r: usize| h.roots.contains(r) ==> #[trigger] h.objects.contains_key(r),
        forall|b: usize| #[trigger]
            h.objects.contains_key(b) ==> !h.objects[b].marked && h.objects[b].fwd_addr is None,
        forall|b: usize|
            #[trigger] h.objects.contains_key(b) && h.alignment > 0 ==> b % h.alignment == 0,
{
    lemma_sizes_add_up(h);
    assert forall|r: usize| h.roots.contains(r) implies #[trigger] h.objects.contains_key(r) by {
        assert(h.objects.dom().contains(r));
    }
}

/// In a heap whose layout is sound nothing reaches beyond the address space.
pub proof fn lemma_shaped_fits(h: HeapView)
    requires
        h.shaped(),
    ensures
        h.fits(),
{
    assert forall|a: usize| #[trigger] h.free.contains_key(a) implies a + h.free[a]
        <= usize::MAX by {
        assert(h.free.contains_key(a) && a <= a + h.free[a] <= a + h.free[a]);
        assert(run_touches(h.free, a + h.free[a]));
    }
}

/// In a sound layout the object that covers an address is the one that holds it.
pub proof fn lemma_cover_holds(h: HeapView, base: usize, addr: usize)
    requires
        h.shaped(),
        h.objects.contains_key(base),
        base <= addr < base + h.objects[base].fields.len(),
    ensures
        h.holds(base, addr),
{
    assert forall|k: usize| #[trigger] h.objects.contains_key(k) && k <= addr implies k
        <= base by {
        if k > base {
            assert(h.objects.contains_key(base) && h.objects.contains_key(k));
        }
    }
}

/// The address unit `y` lies in the span of the object at `base`.
pub open spec fn in_span(h: HeapView, base: usize, y: int) -> bool {
    base <= y < base + h.objects[base].fields.len()
}

/// The address unit `y` lies in the span of one of the first `n` of `keys`.
pub open spec fn in_listed(h: HeapView, keys: Seq<usize>, n: int, y: int) -> bool {
    exists|j: int| 0 <= j < n && in_span(h, #[trigger] keys[j], y)
}

/// `h2` is `h` after the object at `from` was moved to `to`: its old
/// cells are free, its new cells are taken, and where it was a root, `to`
/// is a root in its place.
pub open spec fn relocated(h: HeapView, h2: HeapView, from: usize, to: usize) -> bool {
    &&& h.objects.contains_key(from)
    &&& h.room_at(from, to)
    &&& h2.objects == h.objects.remove(from).insert(to, h.objects[from])
    &&& h2.roots == if h.roots.contains(from) {
        h.roots.remove(from).insert(to)
    } else {
        h.roots
    }
    &&& h2.cells == h.cells
    &&& h2.alignment == h.alignment
    &&& coalesced(h2.free)
    &&& fits(h2.free)
    &&& positive(h.free) && h.objects[from].fields.len() >= 1 ==> positive(h2.free)
    &&& forall|x: int|
        run_covers(h2.free, x) <==> (run_covers(h.free, x) || in_span(h, from, x)) && !(to <= x
            < to + h.objects[from].fields.len())
    &&& forall|p: int|
        run_touches(h2.free, p) ==> run_touches(h.free, p) || (from <= p <= from
            + h.objects[from].fields.len())
}

/// An empty heap of `size` address units: no object, no root, one free
/// run, every cell shown as free.
pub open spec fn fresh(size: usize, alignment: usize) -> HeapView {
    HeapView {
        objects: Map::empty(),
        roots: Set::empty(),
        free: if size == 0 {
            Map::empty()
        } else {
            Map::empty().insert(0, size)
        },
        cells: Seq::new(size as nat, |i: int| MemoryCell { status: CellStatus::Free }),
        alignment,
    }
}

/// A sound layout is determined by its objects: two heaps of one size
/// with sound layouts and the same objects have the same free list.
pub proof fn lemma_layout_unique(h1: HeapView, h2: HeapView)
    requires
        h1.shaped(),
        h2.shaped(),
        h1.objects == h2.objects,
        h1.size() == h2.size(),
    ensures
        h1.free == h2.free,
{
    assert forall|x: int| #[trigger] run_covers(h1.free, x) implies 0 <= x < h1.size() by {
        let s = choose|s: usize| #[trigger] h1.free.contains_key(s) && s <= x < s + h1.free[s];
        assert(h1.free.contains_key(s) && s <= s + h1.free[s] <= s + h1.free[s]);
        assert(run_touches(h1.free, s + h1.free[s]));
    }
    assert forall|x: int| #[trigger] run_covers(h2.free, x) implies 0 <= x < h2.size() by {
        let s = choose|s: usize| #[trigger] h2.free.contains_key(s) && s <= x < s + h2.free[s];
        assert(h2.free.contains_key(s) && s <= s + h2.free[s] <= s + h2.free[s]);
        assert(run_touches(h2.free, s + h2.free[s]));
    }
    assert forall|x: int| h1.in_object(x) <==> h2.in_object(x) by {
        if h1.in_object(x) {
            let b = choose|b: usize| #[trigger]
                h1.objects.contains_key(b) && b <= x < b + h1.objects[b].fields.len();
            assert(h2.objects.contains_key(b) && b <= x < b + h2.objects[b].fields.len());
        }
        if h2.in_object(x) {
            let b = choose|b: usize| #[trigger]
                h2.objects.contains_key(b) && b <= x < b + h2.objects[b].fields.len();
            assert(h1.objects.contains_key(b) && b <= x < b + h1.objects[b].fields.len());
        }
    }
    assert forall|x: int| run_covers(h1.free, x) <==> run_covers(h2.free, x) by {
        if run_covers(h1.free, x) {
            assert(run_covers(h1.free, x) <==> !h1.in_object(x));
            assert(run_covers(h2.free, x) <==> !h2.in_object(x));
        }
        if run_covers(h2.free, x) {
            assert(run_covers(h1.free, x) <==> !h1.in_object(x));
            assert(run_covers(h2.free, x) <==> !h2.in_object(x));
        }
    }
    crate::free_list::lemma_cells_unique(h1.free, h2.free);
}

/// The sum of the sizes of the objects that start below `limit`.
pub open spec fn sizes_below(objects: Map<usize, ObjectView>, limit: int) -> int
    decreases limit,
{
    if limit <= 0 {
        0
    } else {
        sizes_below(objects, limit - 1) + if objects.contains_key((limit - 1) as usize) {
            objects[(limit - 1) as usize].fields.len() as int
        } else {
            0
        }
    }
}

/// The sum of the sizes of all objects.
pub open spec fn sizes_total(objects: Map<usize, ObjectView>) -> int {
    sizes_below(objects, usize::MAX as int + 1)
}

/// The address unit `x` lies in a free run or in an object that starts below `limit`.
pub open spec fn early_covers(h: HeapView, limit: int, x: int) -> bool {
    ||| exists|s: usize| #[trigger] h.free.contains_key(s) && s < limit && s <= x < s + h.free[s]
    ||| exists|b: usize| #[trigger]
        h.objects.contains_key(b) && b < limit && b <= x < b + h.objects[b].fields.len()
}

/// In a sound layout the free runs and objects that start below `limit`
/// cover every cell below `limit`, and beyond it just as many cells as
/// their sizes say.
proof fn lemma_sizes_up_to(h: HeapView, limit: int)
    requires
        h.shaped(),
        0 <= limit <= h.size(),
    ensures
        limit <= total_below(h.free, limit) + sizes_below(h.objects, limit) <= h.size(),
        forall|x: int|
            limit <= x ==> (#[trigger] early_covers(h, limit, x) <==> x < total_below(h.free, limit)
                + sizes_below(h.objects, limit)),
    decreases limit,
{
    let reach = total_below(h.free, limit) + sizes_below(h.objects, limit);
    if limit == 0 {
        assert forall|x: int| 0 <= x implies !early_covers(h, 0, x) by {}
    } else {
        let at = (limit - 1) as usize;
        lemma_sizes_up_to(h, limit - 1);
        let before = total_below(h.free, limit - 1) + sizes_below(h.objects, limit - 1);
        // what the units that start at `at` cover
        if h.free.contains_key(at) {
            assert(h.free.contains_key(at) && at <= at + h.free[at] <= at + h.free[at]);
            assert(run_touches(h.free, at + h.free[at]));
        }
        assert(run_covers(h.free, at as int) <==> !h.in_object(at as int));
        if before > at {
            // the cell at `at` lies in a unit that starts before it
            assert(early_covers(h, limit - 1, at as int));
            if h.objects.contains_key(at) {
                assert(h.objects.contains_key(at) && at <= at < at + h.objects[at].fields.len());
                assert(h.in_object(at as int));
                if exists|b: usize| #[trigger]
                    h.objects.contains_key(b) && b < limit - 1 && b <= at < b
                        + h.objects[b].fields.len() {
                    let b = choose|b: usize| #[trigger]
                        h.objects.contains_key(b) && b < limit - 1 && b <= at < b
                            + h.objects[b].fields.len();
                    assert(h.objects.contains_key(b) && h.objects.contains_key(at));
                } else {
                    let s = choose|s: usize| #[trigger]
                        h.free.contains_key(s) && s < limit - 1 && s <= at < s + h.free[s];
                    assert(h.free.contains_key(s) && s <= at < s + h.free[s]);
                    assert(run_covers(h.free, at as int));
                }
                assert(false);
            }
            if h.free.contains_key(at) && h.free[at] > 0 {
                assert(h.free.contains_key(at) && at <= at < at + h.free[at]);
                assert(run_covers(h.free, at as int));
                if exists|b: usize| #[trigger]
                    h.objects.contains_key(b) && b < limit - 1 && b <= at < b
                        + h.objects[b].fields.len() {
                    let b = choose|b: usize| #[trigger]
                        h.objects.contains_key(b) && b < limit - 1 && b <= at < b
                            + h.objects[b].fields.len();
                    assert(h.objects.contains_key(b) && b <= at < b + h.objects[b].fields.len());
                    assert(h.in_object(at as int));
                } else {
                    let s = choose|s: usize| #[trigger]
                        h.free.contains_key(s) && s < limit - 1 && s <= at < s + h.free[s];
                    assert(h.free.contains_key(s) && h.free.contains_key(at));
                }
                assert(false);
            }
            assert(reach == before);
            assert forall|x: int| limit <= x implies (#[trigger] early_covers(h, limit, x) <==> x
                < reach) by {
                assert(early_covers(h, limit - 1, x) <==> x < before);
                if early_covers(h, limit, x) && !early_covers(h, limit - 1, x) {
                    assert(false);
                }
                if early_covers(h, limit - 1, x) {
                    assert(early_covers(h, limit, x));
                }
            }
        } else {
            // no unit that starts before `at` reaches it: one starts here
            assert(before == at);
            assert(!early_covers(h, limit - 1, at as int));
            if h.in_object(at as int) {
                let b = choose|b: usize| #[trigger]
                    h.objects.contains_key(b) && b <= at < b + h.objects[b].fields.len();
                assert(b == at);
                if h.free.contains_key(at) && h.free[at] > 0 {
                    assert(h.free.contains_key(at) && at <= at < at + h.free[at]);
                    assert(run_covers(h.free, at as int));
                    assert(false);
                }
                assert(reach == at + h.objects[at].fields.len());
            } else {
                assert(run_covers(h.free, at as int));
                let s = choose|s: usize| #[trigger]
                    h.free.contains_key(s) && s <= at < s + h.free[s];
                assert(s == at);
                if h.objects.contains_key(at) {
                    assert(h.objects.contains_key(at) && at <= at < at
                        + h.objects[at].fields.len());
                    assert(h.in_object(at as int));
                    assert(false);
                }
                assert(reach == at + h.free[at]);
            }
            assert forall|x: int| limit <= x implies (#[trigger] early_covers(h, limit, x) <==> x
                < reach) by {
                assert(early_covers(h, limit - 1, x) <==> x < before);
                if x < reach {
                    if h.objects.contains_key(at) {
                        assert(h.objects.contains_key(at) && at < limit && at <= x < at
                            + h.objects[at].fields.len());
                    } else {
                        assert(h.free.contains_key(at) && at < limit && at <= x < at + h.free[at]);
                    }
                }
            }
        }
    }
}

/// Beyond the heap no free run has a length, and no object starts.
proof fn lemma_sizes_beyond(h: HeapView, limit: int)
    requires
        h.shaped(),
        h.size() <= limit <= usize::MAX + 1,
    ensures
        total_below(h.free, limit) == total_below(h.free, h.size()),
        sizes_below(h.objects, limit) == sizes_below(h.objects, h.size()),
    decreases limit,
{
    if limit > h.size() {
        lemma_sizes_beyond(h, limit - 1);
        let at = (limit - 1) as usize;
        if h.free.contains_key(at) {
            assert(h.free.contains_key(at) && at <= at + h.free[at] <= at + h.free[at]);
            assert(run_touches(h.free, at + h.free[at]));
        }
    }
}

/// In a sound layout the sizes of the objects and the lengths of the
/// free runs add up to the size of the heap.
pub proof fn lemma_sizes_add_up(h: HeapView)
    requires
        h.shaped(),
    ensures
        sizes_total(h.objects) + total(h.free) == h.size(),
        0 <= total(h.free) <= h.size(),
        0 <= sizes_total(h.objects) <= h.size(),
{
    lemma_sizes_up_to(h, h.size());
    lemma_sizes_beyond(h, usize::MAX + 1);
    let reach = total_below(h.free, h.size()) + sizes_below(h.objects, h.size());
    if reach > h.size() {
        assert(early_covers(h, h.size(), h.size()));
        if exists|b: usize| #[trigger]
            h.objects.contains_key(b) && b < h.size() && b <= h.size() < b
                + h.objects[b].fields.len() {
            let b = choose|b: usize| #[trigger]
                h.objects.contains_key(b) && b < h.size() && b <= h.size() < b
                    + h.objects[b].fields.len();
            assert(h.objects.contains_key(b));
        } else {
            let s = choose|s: usize| #[trigger]
                h.free.contains_key(s) && s < h.size() && s <= h.size() < s + h.free[s];
            assert(h.free.contains_key(s) && s <= s + h.free[s] <= s + h.free[s]);
            assert(run_touches(h.free, s + h.free[s]));
        }
        assert(false);
    }
    lemma_nonnegative_sums(h, h.size());
}

/// The sums are not negative.
proof fn lemma_nonnegative_sums(h: HeapView, limit: int)
    requires
        0 <= limit,
    ensures
        0 <= total_below(h.free, limit),
        0 <= sizes_below(h.objects, limit),
    decreases limit,
{
    if limit > 0 {
        lemma_nonnegative_sums(h, limit - 1);
    }
}

/// What freeing the object at `addr` does to a sound layout.
pub proof fn lemma_freed_shaped(h: HeapView, h2: HeapView, addr: usize)
    requires
        h.shaped(),
        h.objects.contains_key(addr),
        h2.objects == h.objects.remove(addr),
        h2.roots == h.roots.remove(addr),
        h2.cells == h.cells,
        h2.alignment == h.alignment,
        coalesced(h2.free),
        positive(h2.free),
        forall|x: int| run_covers(h2.free, x) <==> run_covers(h.free, x) || in_span(h, addr, x),
        forall|p: int|
            run_touches(h2.free, p) ==> run_touches(h.free, p) || (addr <= p <= addr
                + h.objects[addr].fields.len()),
    ensures
        h2.shaped(),
        forall|x: int| h2.in_object(x) <==> h.in_object(x) && !in_span(h, addr, x),
{
    assert forall|x: int| h2.in_object(x) <==> h.in_object(x) && !in_span(h, addr, x) by {
        if h2.in_object(x) {
            let b = choose|b: usize| #[trigger]
                h2.objects.contains_key(b) && b <= x < b + h2.objects[b].fields.len();
            assert(h.objects.contains_key(b) && b <= x < b + h.objects[b].fields.len());
            assert(h.objects.contains_key(addr) && h.objects.contains_key(b));
        }
        if h.in_object(x) && !in_span(h, addr, x) {
            let b = choose|b: usize| #[trigger]
                h.objects.contains_key(b) && b <= x < b + h.objects[b].fields.len();
            assert(h2.objects.contains_key(b) && b <= x < b + h2.objects[b].fields.len());
        }
    }
    assert forall|a: usize, b: usize|
        #![trigger h2.objects.contains_key(a), h2.objects.contains_key(b)]
        h2.objects.contains_key(a) && h2.objects.contains_key(b) && a < b implies a
        + h2.objects[a].fields.len() <= b by {
        assert(h.objects.contains_key(a) && h.objects.contains_key(b));
    }
    assert forall|x: int| 0 <= x < h2.size() implies (run_covers(h2.free, x) <==> !h2.in_object(
        x,
    )) by {
        assert(run_covers(h.free, x) <==> !h.in_object(x));
        if in_span(h, addr, x) {
            assert(h.objects.contains_key(addr) && addr <= x < addr
                + h.objects[addr].fields.len());
        }
    }
}

/// What moving the object at `from` to `to` does to a sound layout, where
/// the cells at `to` are free once the object has left its place.
pub proof fn lemma_moved_shaped(h: HeapView, h2: HeapView, from: usize, to: usize)
    requires
        h.shaped(),
        h.objects.contains_key(from),
        h2.objects == h.objects.remove(from).insert(to, h.objects[from]),
        h2.roots == if h.roots.contains(from) {
            h.roots.remove(from).insert(to)
        } else {
            h.roots
        },
        h2.cells == h.cells,
        h2.alignment == h.alignment,
        aligned(to, h.alignment),
        coalesced(h2.free),
        positive(h2.free),
        forall|x: int|
            to <= x < to + h.objects[from].fields.len() ==> run_covers(h.free, x) || in_span(
                h,
                from,
                x,
            ),
        forall|x: int|
            run_covers(h2.free, x) <==> (run_covers(h.free, x) || in_span(h, from, x)) && !(to <= x
                < to + h.objects[from].fields.len()),
        forall|p: int|
            run_touches(h2.free, p) ==> run_touches(h.free, p) || (from <= p <= from
                + h.objects[from].fields.len()),
    ensures
        h2.shaped(),
{
    let len = h.objects[from].fields.len();
    // the free cells lie in the heap, and the cells at the new place in no other object
    assert forall|x: int| #[trigger] run_covers(h.free, x) implies x < h.size() by {
        let s = choose|s: usize| #[trigger] h.free.contains_key(s) && s <= x < s + h.free[s];
        assert(h.free.contains_key(s) && s <= s + h.free[s] <= s + h.free[s]);
        assert(run_touches(h.free, s + h.free[s]));
    }
    assert forall|b: usize, x: int|
        h.objects.contains_key(b) && b != from && #[trigger] in_span(h, b, x) && to <= x < to
            + len implies false by {
        assert(h.objects.contains_key(b) && b <= x < b + h.objects[b].fields.len());
        assert(h.in_object(x));
        assert(h.objects.contains_key(from) && h.objects.contains_key(b));
        assert(x < h.size());
    }
    assert(to + len <= h.size()) by {
        let x = to + len - 1;
        assert(run_covers(h.free, x) || in_span(h, from, x));
    }
    assert forall|a: usize, b: usize|
        #![trigger h2.objects.contains_key(a), h2.objects.contains_key(b)]
        h2.objects.contains_key(a) && h2.objects.contains_key(b) && a < b implies a
        + h2.objects[a].fields.len() <= b by {
        if a == to && b != to {
            assert(h.objects.contains_key(b) && b != from);
            if to + len > b {
                assert(to <= b < to + len);
                assert(in_span(h, b, b as int));
            }
        } else if b == to && a != to {
            assert(h.objects.contains_key(a) && a != from);
            if a + h.objects[a].fields.len() > to {
                assert(to <= to < to + len);
                assert(in_span(h, a, to as int));
            }
        } else {
            assert(h.objects.contains_key(a) && h.objects.contains_key(b));
        }
    }
    assert forall|x: int| 0 <= x < h2.size() implies (run_covers(h2.free, x) <==> !h2.in_object(
        x,
    )) by {
        assert(run_covers(h.free, x) <==> !h.in_object(x));
        if h2.in_object(x) {
            let b = choose|b: usize| #[trigger]
                h2.objects.contains_key(b) && b <= x < b + h2.objects[b].fields.len();
            if b != to {
                assert(h.objects.contains_key(b) && b <= x < b + h.objects[b].fields.len());
                assert(in_span(h, b, x));
                assert(h.objects.contains_key(from) && h.objects.contains_key(b));
            }
        } else {
            assert(!(h2.objects.contains_key(to) && to <= x < to + h2.objects[to].fields.len()));
            if h.in_object(x) {
                let b = choose|b: usize| #[trigger]
                    h.objects.contains_key(b) && b <= x < b + h.objects[b].fields.len();
                if b != from {
                    if b == to {
                        assert(in_span(h, b, to as int));
                    }
                    assert(h2.objects.contains_key(b) && b <= x < b
                        + h2.objects[b].fields.len());
                }
            }
        }
        if in_span(h, from, x) {
            assert(h.objects.contains_key(from) && from <= x < from
                + h.objects[from].fields.len());
        }
    }
}

/// A run that covers a cell is among the listed runs.
proof fn lemma_cover_index(entries: Seq<(usize, usize)>, m: Map<usize, usize>, x: int) -> (idx: int)
    requires
        crate::free_list::entries_of(entries, m),
        run_covers(m, x),
    ensures
        0 <= idx < entries.len(),
        entries[idx].0 <= x < entries[idx].0 + entries[idx].1,
{
    let starts = entries.map_values(|e: (usize, usize)| e.0);
    let s = choose|s: usize| #[trigger] m.contains_key(s) && s <= x < s + m[s];
    assert(starts.contains(s));
    let idx = choose|idx: int| 0 <= idx < starts.len() && starts[idx] == s;
    assert(entries[idx].0 == s);
    idx
}

/// An object that covers a cell is among the listed objects.
proof fn lemma_object_index(keys: Seq<usize>, h: HeapView, x: int) -> (idx: int)
    requires
        lists(keys, h.objects.dom()),
        h.in_object(x),
    ensures
        0 <= idx < keys.len(),
        h.objects.contains_key(keys[idx]),
        keys[idx] <= x < keys[idx] + h.objects[keys[idx]].fields.len(),
{
    let b = choose|b: usize| #[trigger]
        h.objects.contains_key(b) && b <= x < b + h.objects[b].fields.len();
    assert(keys.contains(b));
    let idx = choose|idx: int| 0 <= idx < keys.len() && keys[idx] == b;
    idx
}

/// A listed run covers its cells.
proof fn lemma_entry_covers(entries: Seq<(usize, usize)>, m: Map<usize, usize>, idx: int, x: int)
    requires
        crate::free_list::entries_of(entries, m),
        0 <= idx < entries.len(),
        entries[idx].0 <= x < entries[idx].0 + entries[idx].1,
    ensures
        run_covers(m, x),
        m.contains_key(entries[idx].0),
        m[entries[idx].0] == entries[idx].1,
{
    let starts = entries.map_values(|e: (usize, usize)| e.0);
    assert(starts[idx] == entries[idx].0);
    assert(starts.contains(entries[idx].0));
    let s = entries[idx].0;
    assert(m.contains_key(s) && s <= x < s + m[s]);
}

/// A listed run of a list without empty runs is not empty.
proof fn lemma_positive_entry(entries: Seq<(usize, usize)>, m: Map<usize, usize>, idx: int)
    requires
        crate::free_list::entries_of(entries, m),
        positive(m),
        0 <= idx < entries.len(),
    ensures
        entries[idx].1 >= 1,
{
    let starts = entries.map_values(|e: (usize, usize)| e.0);
    assert(starts[idx] == entries[idx].0);
    assert(starts.contains(entries[idx].0));
}

/// The listed runs come in the order of their starts.
proof fn lemma_entries_ascend(entries: Seq<(usize, usize)>, m: Map<usize, usize>, i: int, j: int)
    requires
        crate::free_list::entries_of(entries, m),
        0 <= i < j < entries.len(),
    ensures
        entries[i].0 < entries[j].0,
        m.contains_key(entries[i].0),
        m.contains_key(entries[j].0),
        m[entries[i].0] == entries[i].1,
{
    let starts = entries.map_values(|e: (usize, usize)| e.0);
    assert(starts[i] == entries[i].0 && starts[j] == entries[j].0);
    assert(starts[i] < starts[j]);
    assert(starts.contains(entries[i].0) && starts.contains(entries[j].0));
}

impl View for Heap {
    type V = HeapView;

    open spec fn view(&self) -> HeapView {
        HeapView {
            objects: object_views(self.objects@),
            roots: self.roots@,
            free: self.free_list@,
            cells: self.memory@,
            alignment: self.alignment,
        }
    }
}

impl Heap {
    /// An empty heap of `size` address units: no object, and one free run
    /// that holds them all; no run where the heap has no units.
    pub fn new(size: usize, alignment: usize) -> (heap: Self)
        ensures
            heap@.wf(),
            heap@ == fresh(size, alignment),
            heap@.objects == Map::<usize, ObjectView>::empty(),
            heap@.roots == Set::<usize>::empty(),
            heap@.size() == size,
            heap@.alignment == alignment,
            forall|i: int| 0 <= i < size ==> (#[trigger] heap@.cells[i]).status == CellStatus::Free,
    {
        let mut inner: BTreeMap<usize, usize> = BTreeMap::new();
        if size > 0 {
            inner.insert(0, size);
        }
        let mut memory: Vec<MemoryCell> = Vec::new();
        let mut i: usize = 0;
        while i < size
            invariant
                i <= size,
                memory@.len() == i,
                forall|j: int| 0 <= j < i ==> (#[trigger] memory@[j]).status == CellStatus::Free,
            decreases size - i,
        {
            memory.push(MemoryCell::free());
            i += 1;
        }
        let heap = Heap {
            roots: BTreeSet::new(),
            objects: BTreeMap::new(),
            free_list: FreeList { inner },
            memory,
            alignment,
        };
        proof {
            let h = heap@;
            assert(h.objects =~= Map::<usize, ObjectView>::empty());
            assert(h.cells =~= fresh(size, alignment).cells);
            assert forall|x: int| 0 <= x < h.size() implies (run_covers(h.free, x)
                <==> !h.in_object(x)) by {
                assert(h.free.contains_key(0usize) && 0 <= x < 0 + h.free[0usize]);
            }
            assert(h.free =~= fresh(size, alignment).free);
        }
        heap
    }

    /// The address rounded up to the heap's alignment, where that is still
    /// an address of the machine.
    pub fn aligned_position(&self, addr: usize) -> (aligned: Option<usize>)
        ensures
            aligned == if align_up(addr as int, self.alignment as int) <= usize::MAX {
                Some(align_up(addr as int, self.alignment as int) as usize)
            } else {
                None::<usize>
            },
    {
        if self.alignment == 0 {
            Some(addr)
        } else {
            let slack: usize = (self.alignment - addr % self.alignment) % self.alignment;
            addr.checked_add(slack)
        }
    }

    /// The base of the object that holds `address`: the greatest object
    /// base at most `address`, if `address` lies within that object.
    /// Otherwise a segmentation fault.
    pub fn lookup_object_addr(&self, address: ObjAddr) -> (found: Result<ObjAddr, VMError>)
        ensures
            match found {
                Ok(base) => self@.holds(base, address),
                Err(e) => e == VMError::SegmentationFault && forall|b: usize|
                    !self@.holds(b, address),
            },
    {
        let keys = sorted_keys(&self.objects);
        match greatest_at_most(&keys, address) {
            Some(base) => {
                let object = self.objects.get(&base).unwrap();
                proof {
                    assert forall|k: usize| #[trigger]
                        self@.objects.contains_key(k) && k <= address implies k <= base by {
                        assert(keys@.contains(k));
                    }
                    assert(self@.base_below(address, base));
                }
                if address - base < object.size() {
                    Ok(base)
                } else {
                    Err(VMError::SegmentationFault)
                }
            },
            None => {
                proof {
                    assert forall|b: usize| !self@.holds(b, address) by {
                        if self@.objects.contains_key(b) {
                            assert(keys@.contains(b));
                        }
                    }
                }
                Err(VMError::SegmentationFault)
            },
        }
    }

    /// The sum of the lengths of the free runs.
    pub fn calc_free_memory(&self) -> (free: usize)
        requires
            total(self@.free) <= usize::MAX,
        ensures
            free == total(self@.free),
    {
        let entries = self.free_list.to_vec();
        let ghost m = self@.free;
        let ghost starts = entries@.map_values(|e: (usize, usize)| e.0);
        let mut sum: usize = 0;
        let mut i: usize = 0;
        let ghost mut seen: int = 0;
        proof {
            assert forall|k: usize| m.contains_key(k) implies 0 < entries.len() && k
                >= entries@[0].0 by {
                assert(starts.contains(k));
                let j = choose|j: int| 0 <= j < starts.len() && starts[j] == k;
                assert(starts[0] == entries@[0].0);
                if j > 0 {
                    assert(starts[0] < starts[j]);
                }
            }
        }
        while i < entries.len()
            invariant
                i <= entries.len(),
                m == self@.free,
                starts == entries@.map_values(|e: (usize, usize)| e.0),
                crate::free_list::entries_of(entries@, m),
                0 <= seen <= usize::MAX + 1,
                i < entries.len() ==> seen <= entries@[i as int].0,
                forall|k: usize| m.contains_key(k) && k >= seen ==> i < entries.len() && k
                    >= entries@[i as int].0,
                sum == total_below(m, seen),
                total(m) <= usize::MAX,
            decreases entries.len() - i,
        {
            let (start, len) = entries[i];
            proof {
                assert(starts[i as int] == start);
                assert(starts.contains(start));
                assert(m.contains_key(start));
                lemma_total_gap(m, seen, start as int);
                crate::free_list::lemma_total_grows(m, start as int + 1, usize::MAX as int + 1);
                assert forall|k: usize| m.contains_key(k) && k >= start + 1 implies i + 1
                    < entries.len() && k >= entries@[i + 1].0 by {
                    assert(starts.contains(k));
                    let j = choose|j: int| 0 <= j < starts.len() && starts[j] == k;
                    assert(starts[j] == entries@[j].0);
                    if j <= i {
                        assert(starts[j] <= starts[i as int]);
                    }
                    if j > i + 1 {
                        assert(starts[i + 1] < starts[j]);
                    }
                }
                if i + 1 < entries.len() {
                    assert(starts[i as int] < starts[i + 1]);
                }
                seen = start as int + 1;
            }
            sum = sum + len;
            i += 1;
        }
        proof {
            lemma_total_gap(m, seen, usize::MAX as int + 1);
        }
        sum
    }

    /// Coalesces the free list.
    pub fn merge_free_ranges(&mut self)
        requires
            fits(old(self)@.free),
        ensures
            coalesced(final(self)@.free),
            fits(final(self)@.free),
            forall|x: int| run_covers(final(self)@.free, x) <==> run_covers(old(self)@.free, x),
            forall|p: int| run_touches(final(self)@.free, p) <==> run_touches(old(self)@.free, p),
            coalesced(old(self)@.free) ==> final(self)@ == old(self)@,
            final(self)@.objects == old(self)@.objects,
            final(self)@.roots == old(self)@.roots,
            final(self)@.cells == old(self)@.cells,
            final(self)@.alignment == old(self)@.alignment,
    {
        self.free_list.merge_adjacent_blocks();
    }

    /// The greatest object base, if the heap holds an object.
    pub fn last_object_addr(&self) -> (last: Option<ObjAddr>)
        ensures
            match last {
                Some(a) => self@.objects.contains_key(a) && forall|k: usize| #[trigger]
                    self@.objects.contains_key(k) ==> k <= a,
                None => self@.objects == Map::<usize, ObjectView>::empty(),
            },
    {
        let keys = sorted_keys(&self.objects);
        if keys.len() == 0 {
            proof {
                assert forall|k: usize| !self@.objects.contains_key(k) by {
                    assert(!keys@.contains(k));
                }
                assert(self@.objects =~= Map::<usize, ObjectView>::empty());
            }
            None
        } else {
            let last = keys[keys.len() - 1];
            proof {
                assert(keys@.contains(keys@[keys@.len() - 1]));
                assert forall|k: usize| #[trigger] self@.objects.contains_key(k) implies k
                    <= last by {
                    assert(keys@.contains(k));
                    let j = choose|j: int| 0 <= j < keys@.len() && keys@[j] == k;
                    if j < keys@.len() - 1 {
                        assert(keys@[j] < keys@[keys@.len() - 1]);
                    }
                }
            }
            Some(last)
        }
    }

    /// The object base that follows the object base `addr`. `None` where
    /// `addr` is the last base, and where it is no object base at all.
    pub fn next_object_addr(&self, addr: ObjAddr) -> (next: Option<ObjAddr>)
        ensures
            match next {
                Some(n) => self@.objects.contains_key(addr) && self@.objects.contains_key(n)
                    && addr < n && forall|k: usize| #[trigger]
                    self@.objects.contains_key(k) && addr < k ==> n <= k,
                None => !self@.objects.contains_key(addr) || forall|k: usize| #[trigger]
                    self@.objects.contains_key(k) ==> k <= addr,
            },
    {
        let keys = sorted_keys(&self.objects);
        let mut i: usize = 0;
        while i < keys.len()
            invariant
                i <= keys.len(),
                lists(keys@, self@.objects.dom()),
                forall|j: int| 0 <= j < i ==> #[trigger] keys@[j] != addr,
            decreases keys.len() - i,
        {
            if keys[i] == addr {
                assert(keys@.contains(keys@[i as int]));
                if i + 1 < keys.len() {
                    let next = keys[i + 1];
                    proof {
                        assert(keys@.contains(keys@[i + 1]));
                        assert(keys@[i as int] < keys@[i + 1]);
                        assert forall|k: usize| #[trigger]
                            self@.objects.contains_key(k) && addr < k implies next <= k by {
                            assert(keys@.contains(k));
                            let j = choose|j: int| 0 <= j < keys@.len() && keys@[j] == k;
                            if j < i {
                                assert(keys@[j] < keys@[i as int]);
                            }
                            if j > i + 1 {
                                assert(keys@[i + 1] < keys@[j]);
                            }
                        }
                    }
                    return Some(next);
                } else {
                    proof {
                        assert forall|k: usize| #[trigger]
                            self@.objects.contains_key(k) implies k <= addr by {
                            assert(keys@.contains(k));
                            let j = choose|j: int| 0 <= j < keys@.len() && keys@[j] == k;
                            if j < i {
                                assert(keys@[j] < keys@[i as int]);
                            }
                        }
                    }
                    return None;
                }
            }
            i += 1;
        }
        proof {
            if self@.objects.contains_key(addr) {
                assert(keys@.contains(addr));
            }
        }
        None
    }

    /// The object base that precedes the object base `addr`. `None` where
    /// `addr` is the first base, and where it is no object base at all.
    pub fn prev_object_addr(&self, addr: ObjAddr) -> (prev: Option<ObjAddr>)
        ensures
            match prev {
                Some(p) => self@.objects.contains_key(addr) && self@.objects.contains_key(p) && p
                    < addr && forall|k: usize| #[trigger]
                    self@.objects.contains_key(k) && k < addr ==> k <= p,
                None => !self@.objects.contains_key(addr) || forall|k: usize| #[trigger]
                    self@.objects.contains_key(k) ==> addr <= k,
            },
    {
        let keys = sorted_keys(&self.objects);
        let mut i: usize = 0;
        while i < keys.len()
            invariant
                i <= keys.len(),
                lists(keys@, self@.objects.dom()),
                forall|j: int| 0 <= j < i ==> #[trigger] keys@[j] != addr,
            decreases keys.len() - i,
        {
            if keys[i] == addr {
                assert(keys@.contains(keys@[i as int]));
                if i > 0 {
                    let prev = keys[i - 1];
                    proof {
                        assert(keys@.contains(keys@[i - 1]));
                        assert(keys@[i - 1] < keys@[i as int]);
                        assert forall|k: usize| #[trigger]
                            self@.objects.contains_key(k) && k < addr implies k <= prev by {
                            assert(keys@.contains(k));
                            let j = choose|j: int| 0 <= j < keys@.len() && keys@[j] == k;
                            if j > i {
                                assert(keys@[i as int] < keys@[j]);
                            }
                            if j < i - 1 {
                                assert(keys@[j] < keys@[i - 1]);
                            }
                        }
                    }
                    return Some(prev);
                } else {
                    proof {
                        assert forall|k: usize| #[trigger]
                            self@.objects.contains_key(k) implies addr <= k by {
                            assert(keys@.contains(k));
                            let j = choose|j: int| 0 <= j < keys@.len() && keys@[j] == k;
                            if j > i {
                                assert(keys@[i as int] < keys@[j]);
                            }
                        }
                    }
                    return None;
                }
            }
            i += 1;
        }
        proof {
            if self@.objects.contains_key(addr) {
                assert(keys@.contains(addr));
            }
        }
        None
    }

    /// Frees the object at `addr`: it leaves the objects and the roots, and
    /// its cells join the free list, which is coalesced.
    pub fn free_object(&mut self, addr: ObjAddr) -> (freed: Result<(), VMError>)
        requires
            old(self)@.fits(),
        ensures
            match freed {
                Ok(_) => {
                    &&& old(self)@.objects.contains_key(addr)
                    &&& final(self)@.objects == old(self)@.objects.remove(addr)
                    &&& final(self)@.roots == old(self)@.roots.remove(addr)
                    &&& final(self)@.cells == old(self)@.cells
                    &&& final(self)@.alignment == old(self)@.alignment
                    &&& coalesced(final(self)@.free)
                    &&& positive(old(self)@.free) && old(self)@.objects[addr].fields.len() >= 1
                        ==> positive(final(self)@.free)
                    &&& forall|x: int|
                        run_covers(final(self)@.free, x) <==> run_covers(old(self)@.free, x)
                            || in_span(old(self)@, addr, x)
                    &&& forall|p: int|
                        run_touches(final(self)@.free, p) <==> run_touches(old(self)@.free, p) || (
                        addr <= p <= addr + old(self)@.objects[addr].fields.len())
                },
                Err(e) => e == VMError::DeallocationError && !old(self)@.objects.contains_key(addr)
                    && final(self)@ == old(self)@,
            },
            final(self)@.fits(),
            old(self)@.shaped() ==> final(self)@.shaped(),
            old(self)@.clean() ==> final(self)@.clean(),
    {
        let ghost h = self@;
        match self.objects.remove(&addr) {
            Some(object) => {
                let size = object.size();
                assert(h.objects.contains_key(addr) && h.objects[addr] == object@);
                self.free_list.insert(addr, size);
                self.free_list.merge_adjacent_blocks();
                self.roots.remove(&addr);
                proof {
                    lemma_views_remove(old(self).objects@, addr);
                    if h.shaped() {
                        lemma_freed_shaped(h, self@, addr);
                    }
                }
                Ok(())
            },
            None => {
                proof {
                    assert(self.objects@ =~= old(self).objects@);
                }
                Err(VMError::DeallocationError)
            },
        }
    }

    /// Moves the object at `from` to `to`: its old cells become free, its
    /// new cells are taken out of the free list, and where it was a root,
    /// `to` is a root in its place.
    ///
    /// A segmentation fault where no object lives at `from`; an allocation
    /// error where the cells at `to` are not all free once the object has
    /// left its place. The heap is unchanged then.
    pub fn move_object(&mut self, from: usize, to: usize) -> (moved: Result<(), VMError>)
        requires
            old(self)@.fits(),
        ensures
            match moved {
                Ok(_) => relocated(old(self)@, final(self)@, from, to),
                Err(e) => {
                    &&& final(self)@ == old(self)@
                    &&& if old(self)@.objects.contains_key(from) {
                        e == VMError::AllocationError && !old(self)@.room_at(from, to)
                    } else {
                        e == VMError::SegmentationFault
                    }
                },
            },
            moved is Ok && old(self)@.shaped() && aligned(to, old(self)@.alignment)
                ==> final(self)@.shaped(),
            moved is Ok && old(self)@.clean() ==> final(self)@.clean(),
    {
        let ghost h = self@;
        let object = match self.objects.get(&from) {
            Some(object) => object.clone(),
            None => {
                return Err(VMError::SegmentationFault);
            },
        };
        let size = object.size();
        assert(h.objects.contains_key(from) && h.objects[from] == object@);
        let mut free = self.free_list.clone();
        free.insert(from, size);
        let ghost widened = free@;
        if size > 0 {
            if to > usize::MAX - size {
                proof {
                    let x = usize::MAX as int;
                    assert(to <= x < to + size);
                    if run_covers(h.free, x) {
                        let s = choose|s: usize| #[trigger]
                            h.free.contains_key(s) && s <= x < s + h.free[s];
                        assert(false);
                    }
                    assert(!h.room_at(from, to));
                }
                return Err(VMError::AllocationError);
            }
            match free.run_holding(to, size) {
                Some((s, len)) => {
                    proof {
                        lemma_removed_run(widened, s);
                        assert forall|x: int| to <= x < to + size implies run_covers(
                            widened,
                            x,
                        ) by {
                            assert(widened.contains_key(s) && s <= x < s + widened[s]);
                        }
                    }
                    free.carve(s, len, to, to + size);
                    proof {
                        assert forall|p: int| run_touches(free@, p) implies run_touches(
                            widened,
                            p,
                        ) by {
                            if !run_touches(widened.remove(s), p) {
                                assert(widened.contains_key(s) && s <= p <= s + widened[s]);
                            }
                        }
                    }
                },
                None => {
                    proof {
                        if h.room_at(from, to) {
                            crate::free_list::lemma_free_range_in_run(
                                widened,
                                to as int,
                                size as int,
                            );
                        }
                    }
                    return Err(VMError::AllocationError);
                },
            }
        }
        self.free_list = free;
        self.objects.remove(&from);
        self.objects.insert(to, object);
        if self.roots.contains(&from) {
            self.roots.remove(&from);
            self.roots.insert(to);
        }
        proof {
            lemma_views_remove(old(self).objects@, from);
            lemma_views_insert(old(self).objects@.remove(from), to, object);
            assert(self@.objects == h.objects.remove(from).insert(to, h.objects[from]));
            let h2 = self@;
            assert forall|x: int|
                run_covers(h2.free, x) <==> (run_covers(h.free, x) || in_span(h, from, x)) && !(to
                    <= x < to + h.objects[from].fields.len()) by {
                assert(run_covers(widened, x) <==> run_covers(h.free, x) || in_span(h, from, x));
            }
            if h.shaped() && aligned(to, h.alignment) {
                lemma_moved_shaped(h, h2, from, to);
            }
        }
        Ok(())
    }

    /// Whether every object has a field and a clean header, lies within
    /// the heap at an aligned address, and ends where the next one
    /// starts, or before.
    pub fn objects_in_order(&self) -> (ok: bool)
        ensures
            ok == (self@.objects_sound() && self@.clean()),
    {
        let ghost h = self@;
        let size = self.memory.len();
        let keys = sorted_keys(&self.objects);
        let mut end: usize = 0;
        let mut i: usize = 0;
        while i < keys.len()
            invariant
                i <= keys.len(),
                h == self@,
                size == h.size(),
                lists(keys@, h.objects.dom()),
                end <= size,
                i == 0 ==> end == 0,
                i > 0 ==> end == keys@[i - 1] + h.objects[keys@[i - 1]].fields.len(),
                forall|j: int|
                    0 <= j < i ==> {
                        let b = #[trigger] keys@[j];
                        &&& h.objects[b].fields.len() >= 1
                        &&& b + h.objects[b].fields.len() <= end
                        &&& aligned(b, h.alignment)
                        &&& !h.objects[b].marked
                        &&& h.objects[b].fwd_addr is None
                    },
                forall|j1: int, j2: int|
                    0 <= j1 < j2 < i ==> #[trigger] keys@[j1] + h.objects[keys@[j1]].fields.len()
                        <= #[trigger] keys@[j2],
            decreases keys.len() - i,
        {
            let b = keys[i];
            assert(keys@.contains(keys@[i as int]));
            assert(h.objects.contains_key(b));
            let object = self.objects.get(&b).unwrap();
            let len = object.size();
            let fine = len >= 1 && b <= size && len <= size - b && (self.alignment == 0 || b
                % self.alignment == 0) && !object.header.marked && object.header.fwd_addr.is_none();
            if !fine {
                return false;
            }
            if b < end {
                proof {
                    assert(i > 0);
                    let a = keys@[i - 1];
                    assert(keys@.contains(keys@[i - 1]));
                    assert(keys@[i - 1] < keys@[i as int]);
                    assert(h.objects.contains_key(a) && h.objects.contains_key(b));
                }
                return false;
            }
            end = b + len;
            i += 1;
        }
        proof {
            assert forall|b: usize| #[trigger] h.objects.contains_key(b)
                implies h.objects[b].fields.len()
                >= 1 && b + h.objects[b].fields.len() <= h.size() && aligned(b, h.alignment)
                && !h.objects[b].marked && h.objects[b].fwd_addr is None by {
                assert(keys@.contains(b));
                let j = choose|j: int| 0 <= j < keys@.len() && keys@[j] == b;
                assert(keys@[j] == b);
            }
            assert forall|a: usize, b: usize|
                #![trigger h.objects.contains_key(a), h.objects.contains_key(b)]
                h.objects.contains_key(a) && h.objects.contains_key(b) && a < b implies a
                + h.objects[a].fields.len() <= b by {
                assert(keys@.contains(a) && keys@.contains(b));
                let j1 = choose|j: int| 0 <= j < keys@.len() && keys@[j] == a;
                let j2 = choose|j: int| 0 <= j < keys@.len() && keys@[j] == b;
                if j1 >= j2 {
                    if j1 > j2 {
                        assert(keys@[j2] < keys@[j1]);
                    }
                }
                assert(keys@[j1] + h.objects[keys@[j1]].fields.len() <= keys@[j2]);
            }
        }
        true
    }

    /// Whether every free run is maximal, not empty, and within the heap.
    pub fn runs_in_order(&self) -> (ok: bool)
        ensures
            ok == self@.runs_sound(),
    {
        let ghost h = self@;
        let ghost m = h.free;
        let size = self.memory.len();
        let entries = self.free_list.to_vec();
        let ghost starts = entries@.map_values(|e: (usize, usize)| e.0);
        let mut end: usize = 0;
        let mut i: usize = 0;
        while i < entries.len()
            invariant
                i <= entries.len(),
                h == self@,
                m == h.free,
                size == h.size(),
                starts == entries@.map_values(|e: (usize, usize)| e.0),
                crate::free_list::entries_of(entries@, m),
                end <= size,
                i > 0 ==> end == entries@[i - 1].0 + entries@[i - 1].1,
                forall|j: int|
                    0 <= j < i ==> (#[trigger] entries@[j]).1 >= 1 && entries@[j].0 + entries@[j].1
                        <= end,
                forall|j1: int, j2: int|
                    0 <= j1 < j2 < i ==> (#[trigger] entries@[j1]).0 + entries@[j1].1 < (
                    #[trigger] entries@[j2]).0,
            decreases entries.len() - i,
        {
            let (s, len) = entries[i];
            proof {
                assert(starts[i as int] == s);
                assert(starts.contains(s));
                assert(m.contains_key(s) && m[s] == len);
            }
            if !(len >= 1 && s <= size && len <= size - s) {
                proof {
                    if len >= 1 {
                        assert(m.contains_key(s) && s <= s + m[s] <= s + m[s]);
                        assert(run_touches(m, s + m[s]));
                    }
                }
                return false;
            }
            if i > 0 && s <= end {
                proof {
                    let a = entries@[i - 1].0;
                    assert(starts[i - 1] == a);
                    assert(starts.contains(a));
                    assert(starts[i - 1] < starts[i as int]);
                    assert(m.contains_key(a) && m.contains_key(s));
                }
                return false;
            }
            end = s + len;
            i += 1;
        }
        proof {
            assert forall|a: usize| #[trigger] m.contains_key(a) implies m[a] >= 1 && a + m[a]
                <= size by {
                assert(starts.contains(a));
                let j = choose|j: int| 0 <= j < starts.len() && starts[j] == a;
                assert(entries@[j].0 == a);
            }
            assert forall|a: usize, b: usize|
                #![trigger m.contains_key(a), m.contains_key(b)]
                m.contains_key(a) && m.contains_key(b) && a < b implies a + m[a] < b by {
                assert(starts.contains(a) && starts.contains(b));
                let j1 = choose|j: int| 0 <= j < starts.len() && starts[j] == a;
                let j2 = choose|j: int| 0 <= j < starts.len() && starts[j] == b;
                assert(entries@[j1].0 == a && entries@[j2].0 == b);
                if j1 >= j2 {
                    if j1 > j2 {
                        assert(starts[j2] < starts[j1]);
                    }
                }
                assert(entries@[j1].0 + entries@[j1].1 < entries@[j2].0);
            }
            assert forall|p: int| run_touches(m, p) implies p <= size by {
                let a = choose|a: usize| #[trigger] m.contains_key(a) && a <= p <= a + m[a];
                assert(m.contains_key(a));
            }
        }
        true
    }

    /// Whether every root is an object.
    pub fn roots_are_objects(&self) -> (ok: bool)
        ensures
            ok == self@.roots.subset_of(self@.objects.dom()),
    {
        let roots = crate::ordered::sorted_members(&self.roots);
        let mut i: usize = 0;
        while i < roots.len()
            invariant
                i <= roots.len(),
                lists(roots@, self@.roots),
                forall|j: int| 0 <= j < i ==> self@.objects.contains_key(#[trigger] roots@[j]),
            decreases roots.len() - i,
        {
            assert(roots@.contains(roots@[i as int]));
            if !self.objects.contains_key(&roots[i]) {
                assert(!self@.objects.dom().contains(roots@[i as int]));
                return false;
            }
            i += 1;
        }
        proof {
            assert forall|r: usize| self@.roots.contains(r) implies self@.objects.dom().contains(
                r,
            ) by {
                assert(roots@.contains(r));
                let j = choose|j: int| 0 <= j < roots@.len() && roots@[j] == r;
                assert(self@.objects.contains_key(roots@[j]));
            }
        }
        true
    }

    /// Whether each address unit of the heap is either free or part of
    /// an object, for a heap whose objects and free runs are sound by
    /// themselves.
    fn cells_are_tiled(&self) -> (ok: bool)
        requires
            self@.objects_sound(),
            self@.runs_sound(),
        ensures
            ok == self@.tiled(),
    {
        let ghost h = self@;
        let ghost m = h.free;
        let size = self.memory.len();
        let entries = self.free_list.to_vec();
        let keys = sorted_keys(&self.objects);
        let mut i: usize = 0;
        let mut j: usize = 0;
        let mut pos: usize = 0;
        while pos < size
            invariant
                h == self@,
                m == h.free,
                size == h.size(),
                h.objects_sound(),
                h.runs_sound(),
                crate::free_list::entries_of(entries@, m),
                lists(keys@, h.objects.dom()),
                pos <= size,
                i <= entries.len(),
                j <= keys.len(),
                forall|t: int| 0 <= t < i ==> (#[trigger] entries@[t]).0 + entries@[t].1 <= pos,
                forall|t: int| i <= t < entries.len() ==> (#[trigger] entries@[t]).0 >= pos,
                forall|t: int|
                    0 <= t < j ==> #[trigger] keys@[t] + h.objects[keys@[t]].fields.len() <= pos,
                forall|t: int| j <= t < keys.len() ==> #[trigger] keys@[t] >= pos,
                forall|x: int| 0 <= x < pos ==> (run_covers(m, x) <==> !h.in_object(x)),
            decreases size - pos,
        {
            if i < entries.len() && entries[i].0 == pos {
                let len = entries[i].1;
                proof {
                    lemma_positive_entry(entries@, m, i as int);
                    lemma_entry_covers(entries@, m, i as int, pos as int);
                    assert(m.contains_key(pos) && pos <= pos + m[pos] <= pos + m[pos]);
                    assert(run_touches(m, pos + m[pos]));
                }
                let end: usize = pos + len;
                if j < keys.len() && keys[j] < end {
                    proof {
                        let c = keys@[j as int];
                        assert(keys@.contains(keys@[j as int]));
                        assert(h.objects.contains_key(c) && c <= c < c + h.objects[c].fields.len());
                        assert(h.in_object(c as int));
                        lemma_entry_covers(entries@, m, i as int, c as int);
                    }
                    return false;
                }
                proof {
                    assert forall|x: int| 0 <= x < end implies (run_covers(m, x) <==> !h.in_object(
                        x,
                    )) by {
                        if x >= pos {
                            lemma_entry_covers(entries@, m, i as int, x);
                            if h.in_object(x) {
                                let t = lemma_object_index(keys@, h, x);
                                if t >= j {
                                    if t > j {
                                        assert(keys@[j as int] < keys@[t]);
                                    }
                                }
                                assert(false);
                            }
                        }
                    }
                    assert forall|t: int| i + 1 <= t < entries.len() implies (
                    #[trigger] entries@[t]).0 >= end by {
                        lemma_entries_ascend(entries@, m, i as int, t);
                    }
                    assert forall|t: int| j <= t < keys.len()
                        implies #[trigger] keys@[t] >= end by {
                        if t > j {
                            assert(keys@[j as int] < keys@[t]);
                        }
                    }
                }
                pos = end;
                i += 1;
            } else if j < keys.len() && keys[j] == pos {
                proof {
                    assert(keys@.contains(keys@[j as int]));
                    assert(h.objects.contains_key(pos));
                }
                let len = self.objects.get(&pos).unwrap().size();
                let end: usize = pos + len;
                if i < entries.len() && entries[i].0 < end {
                    proof {
                        let c = entries@[i as int].0;
                        lemma_positive_entry(entries@, m, i as int);
                        lemma_entry_covers(entries@, m, i as int, c as int);
                        assert(h.objects.contains_key(pos) && pos <= c < pos
                            + h.objects[pos].fields.len());
                        assert(h.in_object(c as int));
                    }
                    return false;
                }
                proof {
                    assert forall|x: int| 0 <= x < end implies (run_covers(m, x) <==> !h.in_object(
                        x,
                    )) by {
                        if x >= pos {
                            assert(h.objects.contains_key(pos) && pos <= x < pos
                                + h.objects[pos].fields.len());
                            assert(h.in_object(x));
                            if run_covers(m, x) {
                                let t = lemma_cover_index(entries@, m, x);
                                if t >= i {
                                    if t > i {
                                        lemma_entries_ascend(entries@, m, i as int, t);
                                    }
                                }
                                assert(false);
                            }
                        }
                    }
                    assert forall|t: int| j + 1 <= t < keys.len() implies #[trigger] keys@[t]
                        >= end by {
                        assert(keys@[j as int] < keys@[t]);
                        assert(keys@.contains(keys@[t]));
                        assert(h.objects.contains_key(keys@[j as int]) && h.objects.contains_key(
                            keys@[t],
                        ));
                    }
                    assert forall|t: int| i <= t < entries.len() implies (
                    #[trigger] entries@[t]).0 >= end by {
                        if t > i {
                            lemma_entries_ascend(entries@, m, i as int, t);
                        }
                    }
                }
                pos = end;
                j += 1;
            } else {
                proof {
                    if run_covers(m, pos as int) {
                        let t = lemma_cover_index(entries@, m, pos as int);
                        if t > i {
                            lemma_entries_ascend(entries@, m, i as int, t);
                        }
                        assert(false);
                    }
                    if h.in_object(pos as int) {
                        let t = lemma_object_index(keys@, h, pos as int);
                        if t > j {
                            assert(keys@[j as int] < keys@[t]);
                        }
                        assert(false);
                    }
                }
                return false;
            }
        }
        true
    }

    /// Whether the heap is as it should be between two instructions.
    pub fn is_sound(&self) -> (sound: bool)
        ensures
            sound == self@.wf(),
    {
        let size = self.memory.len();
        proof {
            let h = self@;
            assert(h.size() == size);
            assert(h.shaped() <==> h.objects_sound() && h.runs_sound() && h.tiled()
                && h.roots.subset_of(h.objects.dom()));
        }
        if !self.objects_in_order() {
            return false;
        }
        if !self.runs_in_order() {
            return false;
        }
        if !self.roots_are_objects() {
            return false;
        }
        self.cells_are_tiled()
    }

    /// Shows every cell of an object as allocated and every other cell as free.
    pub fn redraw_memory(&mut self)
        ensures
            final(self)@.objects == old(self)@.objects,
            final(self)@.roots == old(self)@.roots,
            final(self)@.free == old(self)@.free,
            final(self)@.alignment == old(self)@.alignment,
            final(self)@.size() == old(self)@.size(),
            forall|x: int|
                0 <= x < old(self)@.size()
                    ==> (#[trigger] final(self)@.cells[x]).status == if old(self)@.in_object(x) {
                    CellStatus::Allocated
                } else {
                    CellStatus::Free
                },
    {
        let size = self.memory.len();
        let mut x: usize = 0;
        while x < size
            invariant
                x <= size,
                size == self.memory@.len(),
                self.objects == old(self).objects,
                self.roots == old(self).roots,
                self.free_list == old(self).free_list,
                self.alignment == old(self).alignment,
                forall|y: int| 0 <= y < x
                    ==> (#[trigger] self.memory@[y]).status == CellStatus::Free,
            decreases size - x,
        {
            self.memory.set(x, MemoryCell::free());
            x += 1;
        }
        let keys = sorted_keys(&self.objects);
        let ghost h = old(self)@;
        let mut i: usize = 0;
        while i < keys.len()
            invariant
                i <= keys.len(),
                size == self.memory@.len(),
                size == h.size(),
                h == old(self)@,
                lists(keys@, h.objects.dom()),
                self.objects == old(self).objects,
                self.roots == old(self).roots,
                self.free_list == old(self).free_list,
                self.alignment == old(self).alignment,
                forall|y: int|
                    0 <= y < size ==> (#[trigger] self.memory@[y]).status == if in_listed(
                        h,
                        keys@,
                        i as int,
                        y,
                    ) {
                        CellStatus::Allocated
                    } else {
                        CellStatus::Free
                    },
            decreases keys.len() - i,
        {
            let base = keys[i];
            assert(keys@.contains(keys@[i as int]));
            let len = self.objects.get(&base).unwrap().size();
            let ghost before = self.memory@;
            let mut offset: usize = 0;
            while offset < len
                invariant
                    offset <= len,
                    size == self.memory@.len(),
                    size == before.len(),
                    self.objects == old(self).objects,
                    self.roots == old(self).roots,
                    self.free_list == old(self).free_list,
                    self.alignment == old(self).alignment,
                    forall|y: int|
                        0 <= y < size ==> (#[trigger] self.memory@[y]).status == if base <= y
                            < base + offset {
                            CellStatus::Allocated
                        } else {
                            before[y].status
                        },
                decreases len - offset,
            {
                if offset < size && base < size - offset {
                    self.memory.set(base + offset, MemoryCell::new(CellStatus::Allocated));
                }
                offset += 1;
            }
            proof {
                assert forall|y: int| 0 <= y < size implies (#[trigger] self.memory@[y]).status
                    == if in_listed(h, keys@, i + 1, y) {
                    CellStatus::Allocated
                } else {
                    CellStatus::Free
                } by {
                    if in_span(h, base, y) {
                        assert(in_span(h, keys@[i as int], y));
                    } else if in_listed(h, keys@, i + 1, y) {
                        let j = choose|j: int| 0 <= j < i + 1 && in_span(h, #[trigger] keys@[j], y);
                        assert(in_span(h, keys@[j], y));
                    } else if in_listed(h, keys@, i as int, y) {
                        let j = choose|j: int| 0 <= j < i && in_span(h, #[trigger] keys@[j], y);
                        assert(in_span(h, keys@[j], y));
                    }
                }
            }
            i += 1;
        }
        proof {
            assert forall|x: int| 0 <= x < h.size() implies (#[trigger] self@.cells[x]).status
                == if h.in_object(x) {
                CellStatus::Allocated
            } else {
                CellStatus::Free
            } by {
                if h.in_object(x) {
                    let b = choose|b: usize| #[trigger]
                        h.objects.contains_key(b) && b <= x < b + h.objects[b].fields.len();
                    assert(keys@.contains(b));
                    let j = choose|j: int| 0 <= j < keys@.len() && keys@[j] == b;
                    assert(in_span(h, keys@[j], x));
                } else if in_listed(h, keys@, i as int, x) {
                    let j = choose|j: int| 0 <= j < i && in_span(h, #[trigger] keys@[j], x);
                    assert(keys@.contains(keys@[j]));
                    assert(h.objects.contains_key(keys@[j]));
                }
            }
        }
    }
}

} // verus!
