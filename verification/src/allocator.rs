use crate::error::VMError;
use crate::free_list::coalesced;
use crate::free_list::entries_of;
use crate::free_list::fits;
use crate::free_list::lemma_removed_run;
use crate::free_list::run_covers;
use crate::free_list::run_touches;
use crate::heap::aligned;
use crate::heap::align_up;
use crate::heap::lemma_align_up;
use crate::heap::lemma_views_insert;
use crate::heap::Heap;
use crate::heap::HeapView;
use crate::object::ObjAddr;
use crate::object::ObjHeader;
use crate::object::Object;
use vstd::prelude::*;

verus! {

/// Places objects in the heap: first fit, at aligned addresses.
#[derive(Debug)]
pub struct Allocator {}

/// The run at `s` can take `size` cells from its first aligned address on.
pub open spec fn suits(h: HeapView, s: usize, size: int) -> bool {
    h.free.contains_key(s) && align_up(s as int, h.alignment as int) + size <= s + h.free[s]
}

/// The run at `s` is the first one that can take `size` cells.
pub open spec fn first_fit(h: HeapView, s: usize, size: int) -> bool {
    &&& suits(h, s, size)
    &&& forall|t: usize| #[trigger] h.free.contains_key(t) && t < s ==> !suits(h, t, size)
}

/// `after` is `before` once the cells from `start` up to `end` were taken
/// out of the run at `s`: that run is gone, and what was left of it before
/// `start` and from `end` on is a run again.
pub open spec fn carved(
    before: Map<usize, usize>,
    after: Map<usize, usize>,
    s: usize,
    start: int,
    end: int,
) -> bool {
    &&& start == s && end == s + before[s] ==> after == before.remove(s)
    &&& start > s || end < s + before[s] ==> coalesced(after)
    &&& coalesced(before) ==> coalesced(after)
    &&& crate::free_list::positive(before) ==> crate::free_list::positive(after)
    &&& forall|x: int|
        run_covers(after, x) <==> run_covers(before.remove(s), x) || (s <= x < start) || (end <= x
            < s + before[s])
    &&& forall|p: int|
        run_touches(after, p) <==> run_touches(before.remove(s), p) || (s < start && s <= p
            <= start) || (end < s + before[s] && end <= p <= s + before[s])
}

/// `after` is `before` once an object with the fields of `object` was
/// placed at `at`: `at` is the first aligned address of the first run that
/// can take the object; its cells have left that run; the object lives
/// there with a clean header, as a root if asked.
pub open spec fn placed(
    before: HeapView,
    after: HeapView,
    object: crate::object::ObjectView,
    is_root: bool,
    at: usize,
) -> bool {
    &&& object.fields.len() > 0
    &&& exists|s: usize|
        {
            &&& #[trigger] first_fit(before, s, object.fields.len() as int)
            &&& at == align_up(s as int, before.alignment as int)
            &&& carved(before.free, after.free, s, at as int, at + object.fields.len())
        }
    &&& after.objects == before.objects.insert(at, object.clean())
    &&& after.roots == if is_root {
        before.roots.insert(at)
    } else {
        before.roots
    }
    &&& after.cells == before.cells
    &&& after.alignment == before.alignment
    &&& aligned(at, before.alignment)
    &&& coalesced(before.free) ==> forall|x: int|
        run_covers(after.free, x) <==> run_covers(before.free, x) && !(at <= x < at
            + object.fields.len())
}

/// No run can take an object of `len` fields, or `len` is 0.
pub open spec fn no_room(h: HeapView, len: int) -> bool {
    len == 0 || forall|s: usize| !suits(h, s, len)
}

/// Taking cells out of a run of a coalesced list frees no cell and takes
/// no other cell.
pub proof fn lemma_carved_cells(
    before: Map<usize, usize>,
    after: Map<usize, usize>,
    s: usize,
    start: int,
    end: int,
)
    requires
        coalesced(before),
        before.contains_key(s),
        s <= start <= end <= s + before[s],
        carved(before, after, s, start, end),
    ensures
        coalesced(after),
        crate::free_list::positive(before) ==> crate::free_list::positive(after),
        forall|x: int| run_covers(after, x) <==> run_covers(before, x) && !(start <= x < end),
        forall|p: int| run_touches(after, p) ==> run_touches(before, p),
{
    lemma_removed_run(before, s);
    assert forall|x: int| run_covers(after, x) <==> run_covers(before, x) && !(start <= x
        < end) by {
        if s <= x < s + before[s] {
            assert(before.contains_key(s) && s <= x < s + before[s]);
        }
    }
    assert forall|p: int| run_touches(after, p) implies run_touches(before, p) by {
        if !run_touches(before.remove(s), p) {
            assert(before.contains_key(s) && s <= p <= s + before[s]);
        }
    }
}

/// What placing an object in free cells does to a sound layout.
pub proof fn lemma_placed_shaped(h: HeapView, h2: HeapView, at: usize, placed: crate::object::ObjectView)
    requires
        h.shaped(),
        placed.fields.len() >= 1,
        forall|x: int| at <= x < at + placed.fields.len() ==> run_covers(h.free, x),
        h2.objects == h.objects.insert(at, placed),
        h2.roots.subset_of(h.roots.insert(at)),
        h2.cells == h.cells,
        h2.alignment == h.alignment,
        aligned(at, h.alignment),
        coalesced(h2.free),
        crate::free_list::positive(h2.free),
        forall|x: int|
            run_covers(h2.free, x) <==> run_covers(h.free, x) && !(at <= x < at
                + placed.fields.len()),
        forall|p: int| run_touches(h2.free, p) ==> run_touches(h.free, p),
    ensures
        h2.shaped(),
        !h.objects.contains_key(at),
{
    let len = placed.fields.len();
    assert forall|x: int| #[trigger] run_covers(h.free, x) implies 0 <= x < h.size()
        && !h.in_object(x) by {
        let s = choose|s: usize| #[trigger] h.free.contains_key(s) && s <= x < s + h.free[s];
        assert(h.free.contains_key(s) && s <= s + h.free[s] <= s + h.free[s]);
        assert(run_touches(h.free, s + h.free[s]));
    }
    assert(run_covers(h.free, at as int));
    assert(run_covers(h.free, at + len - 1));
    if h.objects.contains_key(at) {
        assert(h.objects.contains_key(at) && at <= at < at + h.objects[at].fields.len());
        assert(h.in_object(at as int));
    }
    assert forall|b: usize, x: int|
        h.objects.contains_key(b) && #[trigger] crate::heap::in_span(h, b, x) && at <= x < at
            + len implies false by {
        assert(h.objects.contains_key(b) && b <= x < b + h.objects[b].fields.len());
        assert(h.in_object(x));
        assert(run_covers(h.free, x));
    }
    assert forall|a: usize, b: usize|
        #![trigger h2.objects.contains_key(a), h2.objects.contains_key(b)]
        h2.objects.contains_key(a) && h2.objects.contains_key(b) && a < b implies a
        + h2.objects[a].fields.len() <= b by {
        if a == at {
            if at + len > b {
                assert(crate::heap::in_span(h, b, b as int));
            }
        } else if b == at {
            if a + h.objects[a].fields.len() > at {
                assert(crate::heap::in_span(h, a, at as int));
            }
        } else {
            assert(h.objects.contains_key(a) && h.objects.contains_key(b));
        }
    }
    assert forall|x: int| 0 <= x < h2.size() implies (run_covers(h2.free, x) <==> !h2.in_object(
        x,
    )) by {
        assert(run_covers(h.free, x) <==> !h.in_object(x));
        if h2.in_object(x) {
            let b = choose|b: usize| #[trigger]
                h2.objects.contains_key(b) && b <= x < b + h2.objects[b].fields.len();
            if b != at {
                assert(h.objects.contains_key(b) && b <= x < b + h.objects[b].fields.len());
                assert(crate::heap::in_span(h, b, x));
            }
        } else {
            assert(!(h2.objects.contains_key(at) && at <= x < at + h2.objects[at].fields.len()));
            if h.in_object(x) {
                let b = choose|b: usize| #[trigger]
                    h.objects.contains_key(b) && b <= x < b + h.objects[b].fields.len();
                assert(h2.objects.contains_key(b) && b <= x < b + h2.objects[b].fields.len());
            }
        }
    }
}

impl Allocator {
    /// An allocator. It keeps nothing: what it needs, the heap holds.
    pub fn new() -> Self {
        Allocator {  }
    }

    /// Places `object` in the first free run that can take it at an
    /// aligned address, with a clean header, and makes it a root if asked.
    ///
    /// An allocation error where no run can take it, and for an object
    /// without fields; the heap is unchanged then.
    pub fn allocate(&self, heap: &mut Heap, object: Object, is_root: bool) -> (outcome: Result<
        ObjAddr,
        VMError,
    >)
        requires
            fits(old(heap)@.free),
        ensures
            match outcome {
                Ok(at) => placed(old(heap)@, final(heap)@, object@, is_root, at),
                Err(e) => e == VMError::AllocationError && final(heap)@ == old(heap)@ && no_room(
                    old(heap)@,
                    object@.fields.len() as int,
                ),
            },
            fits(final(heap)@.free),
            old(heap)@.shaped() ==> final(heap)@.shaped(),
            old(heap)@.clean() ==> final(heap)@.clean(),
    {
        let size = object.size();
        if size == 0 {
            return Err(VMError::AllocationError);
        }
        let ghost h = heap@;
        match self.find_suitable_free_block(heap, size) {
            Some(at) => {
                let placed = Object {
                    header: ObjHeader { marked: false, fwd_addr: None },
                    fields: object.fields,
                };
                let ghost raw = heap.objects@;
                heap.objects.insert(at, placed);
                if is_root {
                    heap.roots.insert(at);
                }
                proof {
                    lemma_views_insert(raw, at, placed);
                    let s = choose|s: usize|
                        {
                            &&& #[trigger] first_fit(h, s, size as int)
                            &&& at == align_up(s as int, h.alignment as int)
                            &&& carved(h.free, heap@.free, s, at as int, at + size)
                        };
                    if h.alignment > 0 {
                        lemma_align_up(s as int, h.alignment as int);
                    }
                    if coalesced(h.free) {
                        lemma_carved_cells(h.free, heap@.free, s, at as int, at + size);
                    }
                    if h.shaped() {
                        assert forall|x: int| at <= x < at + size implies run_covers(
                            h.free,
                            x,
                        ) by {
                            assert(h.free.contains_key(s) && s <= x < s + h.free[s]);
                        }
                        lemma_placed_shaped(h, heap@, at, placed@);
                    }
                }
                Ok(at)
            },
            None => Err(VMError::AllocationError),
        }
    }

    /// Finds the first free run that can take `size` cells at an aligned
    /// address, takes them out of it, and gives that address.
    pub fn find_suitable_free_block(&self, heap: &mut Heap, size: usize) -> (found: Option<
        ObjAddr,
    >)
        requires
            fits(old(heap)@.free),
        ensures
            match found {
                Some(at) => exists|s: usize|
                    {
                        &&& #[trigger] first_fit(old(heap)@, s, size as int)
                        &&& at == align_up(s as int, old(heap)@.alignment as int)
                        &&& carved(old(heap)@.free, final(heap)@.free, s, at as int, at + size)
                    },
                None => final(heap)@.free == old(heap)@.free && forall|s: usize|
                    !suits(old(heap)@, s, size as int),
            },
            fits(final(heap)@.free),
            final(heap)@.objects == old(heap)@.objects,
            final(heap)@.roots == old(heap)@.roots,
            final(heap)@.cells == old(heap)@.cells,
            final(heap)@.alignment == old(heap)@.alignment,
    {
        let entries = heap.free_list.to_vec();
        let ghost h = heap@;
        let ghost starts = entries@.map_values(|e: (usize, usize)| e.0);
        let mut i: usize = 0;
        while i < entries.len()
            invariant
                i <= entries.len(),
                heap == old(heap),
                h == heap@,
                fits(h.free),
                starts == entries@.map_values(|e: (usize, usize)| e.0),
                entries_of(entries@, h.free),
                forall|j: int| 0 <= j < i ==> !suits(h, (#[trigger] entries@[j]).0, size as int),
            decreases entries.len() - i,
        {
            let (block_start, block_size) = entries[i];
            proof {
                assert(starts[i as int] == block_start);
                assert(starts.contains(block_start));
                if h.alignment > 0 {
                    lemma_align_up(block_start as int, h.alignment as int);
                }
            }
            match heap.aligned_position(block_start) {
                Some(aligned_start) => {
                    let slack: usize = aligned_start - block_start;
                    if slack <= block_size && size <= block_size - slack {
                        let block_end: usize = aligned_start + size;
                        self.split_free_block(
                            heap,
                            block_start,
                            block_size,
                            aligned_start,
                            block_end,
                        );
                        proof {
                            assert forall|t: usize| #[trigger]
                                h.free.contains_key(t) && t < block_start implies !suits(
                                h,
                                t,
                                size as int,
                            ) by {
                                assert(starts.contains(t));
                                let j = choose|j: int| 0 <= j < starts.len() && starts[j] == t;
                                assert(entries@[j].0 == t);
                                if j >= i {
                                    if j > i {
                                        assert(starts[i as int] < starts[j]);
                                    }
                                }
                            }
                            assert(first_fit(h, block_start, size as int));
                        }
                        return Some(aligned_start);
                    }
                },
                None => {},
            }
            i += 1;
        }
        proof {
            assert forall|s: usize| !suits(h, s, size as int) by {
                if h.free.contains_key(s) {
                    assert(starts.contains(s));
                    let j = choose|j: int| 0 <= j < starts.len() && starts[j] == s;
                    assert(entries@[j].0 == s);
                }
            }
        }
        None
    }

    /// Takes the cells from `aligned_start` up to `block_end` out of the
    /// free block that is given by its start and size: the block leaves the
    /// free list, and what is left of it on either side is inserted again.
    pub fn split_free_block(
        &self,
        heap: &mut Heap,
        block_start: ObjAddr,
        block_size: usize,
        aligned_start: ObjAddr,
        block_end: ObjAddr,
    )
        requires
            fits(old(heap)@.free),
            block_start <= aligned_start,
            block_end <= block_start + block_size <= usize::MAX,
        ensures
            fits(final(heap)@.free),
            aligned_start == block_start && block_end == block_start + block_size
                ==> final(heap)@.free == old(heap)@.free.remove(block_start),
            aligned_start > block_start || block_end < block_start + block_size ==> coalesced(
                final(heap)@.free,
            ),
            coalesced(old(heap)@.free) ==> coalesced(final(heap)@.free),
            crate::free_list::positive(old(heap)@.free) ==> crate::free_list::positive(
                final(heap)@.free,
            ),
            forall|x: int|
                run_covers(final(heap)@.free, x) <==> run_covers(
                    old(heap)@.free.remove(block_start),
                    x,
                ) || (block_start <= x < aligned_start) || (block_end <= x < block_start
                    + block_size),
            forall|p: int|
                run_touches(final(heap)@.free, p) <==> run_touches(
                    old(heap)@.free.remove(block_start),
                    p,
                ) || (block_start < aligned_start && block_start <= p <= aligned_start) || (
                block_end < block_start + block_size && block_end <= p <= block_start
                    + block_size),
            final(heap)@.objects == old(heap)@.objects,
            final(heap)@.roots == old(heap)@.roots,
            final(heap)@.cells == old(heap)@.cells,
            final(heap)@.alignment == old(heap)@.alignment,
    {
        heap.free_list.carve(block_start, block_size, aligned_start, block_end);
    }
}

impl Default for Allocator {
    fn default() -> Self {
        Self::new()
    }
}

} // verus!
