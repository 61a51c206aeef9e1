use crate::gc::common::lemma_headers_keep_layout;
use crate::gc::common::set_header;
use crate::gc::lemma_log_push;
use crate::gc::log_of;
use crate::gc::phase;
use crate::gc::GCEvent;
use crate::gc::GCEventView;
use crate::heap::in_span;
use crate::heap::lemma_shaped_fits;
use crate::heap::lemma_views_insert;
use crate::heap::lemma_views_remove;
use crate::heap::Heap;
use crate::heap::HeapView;
use crate::object::Address;
use crate::object::Field;
use crate::object::ObjAddr;
use crate::object::ObjHeader;
use crate::ordered::lists;
use crate::ordered::sorted_keys;
use std::collections::HashMap;
use vstd::prelude::*;

verus! {

broadcast use vstd::std_specs::hash::group_hash_axioms;

/// The moves of a two-finger compaction of the objects `keys[lo..=hi]`,
/// added to the moves `acc`.
///
/// The near finger passes over marked objects, which stay. The far
/// finger passes over unmarked objects, which are freed. Where the near
/// finger is at an unmarked object and the far finger at a marked one,
/// the marked object moves into the place of the unmarked one if it is
/// not larger, and both fingers go on; else it stays and the far finger
/// goes on alone.
pub open spec fn moves_from(
    h: HeapView,
    keys: Seq<usize>,
    lo: int,
    hi: int,
    acc: Map<usize, usize>,
) -> Map<usize, usize>
    decreases hi - lo + 1,
{
    if lo >= hi {
        acc
    } else if h.objects[keys[lo]].marked {
        moves_from(h, keys, lo + 1, hi, acc)
    } else if !h.objects[keys[hi]].marked {
        moves_from(h, keys, lo, hi - 1, acc)
    } else if h.objects[keys[hi]].fields.len() <= h.objects[keys[lo]].fields.len() {
        moves_from(h, keys, lo + 1, hi - 1, acc.insert(keys[hi], keys[lo]))
    } else {
        moves_from(h, keys, lo, hi - 1, acc)
    }
}

/// The moves of a two-finger compaction of a heap whose object bases
/// are `keys`: from the old base of each moved object to its new base.
pub open spec fn moves(h: HeapView, keys: Seq<usize>) -> Map<usize, usize> {
    moves_from(h, keys, 0, keys.len() - 1, Map::empty())
}

/// The event of the freeing of the object at `b`.
pub open spec fn freed(h: HeapView, b: usize) -> GCEventView {
    GCEventView::FreeObject { addr: b, size: h.objects[b].fields.len() as usize }
}

/// The events of a two-finger compaction of the objects `keys[lo..=hi]`,
/// in their order: an unmarked object is freed when the far finger
/// passes over it, and when a marked object moves into its place; the
/// last object between the fingers is freed if it is unmarked.
pub open spec fn finger_events(h: HeapView, keys: Seq<usize>, lo: int, hi: int) -> Seq<GCEventView>
    decreases hi - lo + 1,
{
    if lo > hi {
        Seq::empty()
    } else if lo == hi {
        if h.objects[keys[lo]].marked {
            Seq::empty()
        } else {
            seq![freed(h, keys[lo])]
        }
    } else if h.objects[keys[lo]].marked {
        finger_events(h, keys, lo + 1, hi)
    } else if !h.objects[keys[hi]].marked {
        seq![freed(h, keys[hi])] + finger_events(h, keys, lo, hi - 1)
    } else if h.objects[keys[hi]].fields.len() <= h.objects[keys[lo]].fields.len() {
        seq![
            freed(h, keys[lo]),
            GCEventView::MoveObject {
                from: keys[hi],
                to: keys[lo],
                size: h.objects[keys[hi]].fields.len() as usize,
            },
        ] + finger_events(h, keys, lo + 1, hi - 1)
    } else {
        finger_events(h, keys, lo, hi - 1)
    }
}

/// The object at `b` was moved and held the address `a`.
pub open spec fn carries(h: HeapView, done: Map<usize, usize>, b: usize, a: usize) -> bool {
    done.contains_key(b) && b <= a < b + h.objects[b].fields.len()
}

/// The forwarding table of the moves `done`: for every field of a moved
/// object, from its old address to its new one.
pub open spec fn field_table(h: HeapView, done: Map<usize, usize>) -> Map<usize, usize> {
    Map::new(
        |a: usize| exists|b: usize| #[trigger] carries(h, done, b, a),
        |a: usize|
            {
                let b = choose|b: usize| #[trigger] carries(h, done, b, a);
                (done[b] + (a - b)) as usize
            },
    )
}

/// The field after the references were updated from the table: a
/// reference to an address of the table refers to what the table gives.
pub open spec fn retabled(table: Map<usize, usize>, field: Field) -> Field {
    match field {
        Field::Ref { addr: Address::Ptr(a) } => if table.contains_key(a) {
            Field::Ref { addr: Address::Ptr(table[a]) }
        } else {
            field
        },
        _ => field,
    }
}

/// The object at `d` has not been dealt with yet.
pub open spec fn waits(h: HeapView, d: usize, low: int, high: int) -> bool {
    h.objects.contains_key(d) && low <= d <= high
}

/// The marked object at `d` has been dealt with and stays where it is.
pub open spec fn stays(h: HeapView, done: Map<usize, usize>, d: usize, low: int, high: int) -> bool {
    h.objects.contains_key(d) && h.objects[d].marked && !(low <= d <= high) && !done.contains_key(
        d,
    )
}

/// The object at `b` has been moved to `d`.
pub open spec fn sent(done: Map<usize, usize>, b: usize, d: usize) -> bool {
    done.contains_key(b) && done[b] == d
}

/// An object has been moved to `d`.
pub open spec fn received(done: Map<usize, usize>, d: usize) -> bool {
    exists|b: usize| #[trigger] sent(done, b, d)
}

/// A root has been moved to `d`.
pub open spec fn root_received(h: HeapView, done: Map<usize, usize>, d: usize) -> bool {
    exists|b: usize| #[trigger] sent(done, b, d) && h.roots.contains(b)
}

/// Every move so far took a marked object from beyond the far finger
/// into the place of an unmarked object before the near finger that is
/// not smaller, and no two moves went to one place.
pub open spec fn paired(h: HeapView, done: Map<usize, usize>, low: int, high: int) -> bool {
    &&& forall|b: usize| #[trigger]
        done.contains_key(b) ==> {
            &&& h.objects.contains_key(b)
            &&& h.objects[b].marked
            &&& b > high
            &&& h.objects.contains_key(done[b])
            &&& !h.objects[done[b]].marked
            &&& done[b] < low
            &&& done[b] < b
            &&& h.objects[b].fields.len() <= h.objects[done[b]].fields.len()
        }
    &&& forall|a: usize, b: usize|
        #![trigger done.contains_key(a), done.contains_key(b)]
        done.contains_key(a) && done.contains_key(b) && done[a] == done[b] ==> a == b
}

/// Every move took a marked object into the place of an unmarked object
/// before it that is not smaller, and no two moves went to one place.
pub open spec fn matched(h: HeapView, done: Map<usize, usize>) -> bool {
    &&& forall|b: usize| #[trigger]
        done.contains_key(b) ==> {
            &&& h.objects.contains_key(b)
            &&& h.objects[b].marked
            &&& h.objects.contains_key(done[b])
            &&& !h.objects[done[b]].marked
            &&& done[b] < b
            &&& h.objects[b].fields.len() <= h.objects[done[b]].fields.len()
        }
    &&& forall|a: usize, b: usize|
        #![trigger done.contains_key(a), done.contains_key(b)]
        done.contains_key(a) && done.contains_key(b) && done[a] == done[b] ==> a == b
}

/// `cur` is `h` after the moves `done`, with the objects from `low` to
/// `high` still to be dealt with: those are as they were; a marked object
/// outside that range lies where it was or where it was moved to, with a
/// clean header; an unmarked object outside that range is gone.
pub open spec fn fingering(
    h: HeapView,
    cur: HeapView,
    done: Map<usize, usize>,
    low: int,
    high: int,
) -> bool {
    &&& forall|d: usize|
        #![trigger cur.objects.contains_key(d)]
        cur.objects.contains_key(d) <==> waits(h, d, low, high) || stays(h, done, d, low, high)
            || received(done, d)
    &&& forall|d: usize| #[trigger] waits(h, d, low, high) ==> cur.objects[d] == h.objects[d]
    &&& forall|d: usize| #[trigger]
        stays(h, done, d, low, high) ==> cur.objects[d] == h.objects[d].clean()
    &&& forall|b: usize, d: usize| #[trigger] sent(done, b, d)
        ==> cur.objects[d] == h.objects[b].clean()
    &&& forall|r: usize|
        #![trigger cur.roots.contains(r)]
        cur.roots.contains(r) <==> (h.roots.contains(r) && (waits(h, r, low, high) || stays(
            h,
            done,
            r,
            low,
            high,
        ))) || root_received(h, done, r)
    &&& cur.cells == h.cells
    &&& cur.alignment == h.alignment
}

/// `after` is `h` after the moves `done` and the update of the
/// references: every marked object lies where it was or where it was
/// moved to, with a clean header and its references updated from the
/// forwarding table; the unmarked objects are gone; a root has followed
/// its object; the layout is sound, so that all other cells are free.
pub open spec fn rearranged(h: HeapView, done: Map<usize, usize>, after: HeapView) -> bool {
    &&& forall|d: usize|
        #![trigger after.objects.contains_key(d)]
        after.objects.contains_key(d) <==> stays(h, done, d, 1, 0) || received(done, d)
    &&& forall|d: usize| #[trigger]
        stays(h, done, d, 1, 0) ==> updated_copy(h, done, after.objects[d], d)
    &&& forall|b: usize, d: usize| #[trigger]
        sent(done, b, d) ==> updated_copy(h, done, after.objects[d], b)
    &&& forall|r: usize|
        #![trigger after.roots.contains(r)]
        after.roots.contains(r) <==> (h.roots.contains(r) && stays(h, done, r, 1, 0))
            || root_received(h, done, r)
    &&& after.cells == h.cells
    &&& after.alignment == h.alignment
    &&& after.wf()
    &&& matched(h, done)
}

/// `copy` is the object at `b` with a clean header and its references updated.
pub open spec fn updated_copy(
    h: HeapView,
    done: Map<usize, usize>,
    copy: crate::object::ObjectView,
    b: usize,
) -> bool {
    &&& !copy.marked
    &&& copy.fwd_addr is None
    &&& copy.fields.len() == h.objects[b].fields.len()
    &&& forall|j: int|
        0 <= j < copy.fields.len() ==> #[trigger] copy.fields[j] == retabled(
            field_table(h, done),
            h.objects[b].fields[j],
        )
}

/// What a two-finger compaction makes of a heap in which the objects to
/// keep are marked.
pub open spec fn compacted(h: HeapView, after: HeapView) -> bool {
    exists|keys: Seq<usize>| #[trigger]
        lists(keys, h.objects.dom()) && rearranged(h, moves(h, keys), after)
}

/// Whether the object at `move_in` is not larger than the object at `dest`.
pub fn can_fit_into(heap: &Heap, move_in: ObjAddr, dest: ObjAddr) -> (fits: bool)
    requires
        heap@.objects.contains_key(move_in),
        heap@.objects.contains_key(dest),
    ensures
        fits == (heap@.objects[move_in].fields.len() <= heap@.objects[dest].fields.len()),
{
    let obj_to_be_moved = heap.objects.get(&move_in).unwrap();
    let obj_to_be_removed = heap.objects.get(&dest).unwrap();
    obj_to_be_moved.size() <= obj_to_be_removed.size()
}

/// Enters every field of the object at `from` in the forwarding table,
/// with the address that it has when the object lies at `to`.
pub fn save_forward_ptrs(
    heap: &Heap,
    forwarding_pointers: &mut HashMap<usize, usize>,
    from: ObjAddr,
    to: ObjAddr,
)
    requires
        heap@.objects.contains_key(from),
        from + heap@.objects[from].fields.len() <= usize::MAX,
        to + heap@.objects[from].fields.len() <= usize::MAX,
    ensures
        forall|a: usize|
            #![trigger final(forwarding_pointers)@.contains_key(a)]
            final(forwarding_pointers)@.contains_key(a) <==> old(forwarding_pointers)@.contains_key(
                a,
            ) || in_span(heap@, from, a as int),
        forall|a: usize| #[trigger]
            final(forwarding_pointers)@.contains_key(a) ==> final(forwarding_pointers)@[a]
                == if in_span(heap@, from, a as int) {
                (to + (a - from)) as usize
            } else {
                old(forwarding_pointers)@[a]
            },
{
    let size = heap.objects.get(&from).unwrap().size();
    let mut offset: usize = 0;
    while offset < size
        invariant
            offset <= size,
            size == heap@.objects[from].fields.len(),
            from + size <= usize::MAX,
            to + size <= usize::MAX,
            forall|a: usize|
                #![trigger forwarding_pointers@.contains_key(a)]
                forwarding_pointers@.contains_key(a) <==> old(forwarding_pointers)@.contains_key(a)
                    || from <= a < from + offset,
            forall|a: usize| #[trigger]
                forwarding_pointers@.contains_key(a) ==> forwarding_pointers@[a] == if from <= a
                    < from + offset {
                    (to + (a - from)) as usize
                } else {
                    old(forwarding_pointers)@[a]
                },
        decreases size - offset,
    {
        forwarding_pointers.insert(from + offset, to + offset);
        offset += 1;
    }
}

/// A marked object that is passed over stays.
proof fn lemma_finger_stay(
    h: HeapView,
    cur: HeapView,
    next: HeapView,
    done: Map<usize, usize>,
    low: int,
    high: int,
    k: usize,
    low2: int,
    high2: int,
)
    requires
        fingering(h, cur, done, low, high),
        paired(h, done, low, high),
        h.objects.contains_key(k),
        h.objects[k].marked,
        h.objects[k].fwd_addr is None,
        low <= k <= high,
        (low2 == k + 1 && high2 == high && forall|d: usize| #[trigger]
            h.objects.contains_key(d) && low <= d ==> k <= d) || (low2 == low && high2 == k - 1
            && forall|d: usize| #[trigger] h.objects.contains_key(d) && d <= high ==> d <= k),
        next == crate::gc::common::with_header(cur, k, ObjHeader { marked: false, fwd_addr: None }),
    ensures
        fingering(h, next, done, low2, high2),
        paired(h, done, low2, high2),
{
    assert(waits(h, k, low, high));
    assert(cur.objects.contains_key(k));
    assert(next.objects.dom() =~= cur.objects.dom());
    assert forall|d: usize| waits(h, d, low, high) <==> waits(h, d, low2, high2) || d == k by {}
    assert forall|d: usize|
        stays(h, done, d, low2, high2) <==> stays(h, done, d, low, high) || d == k by {
        if d == k && done.contains_key(k) {
            assert(k > high);
        }
    }
    assert forall|d: usize|
        #![trigger next.objects.contains_key(d)]
        next.objects.contains_key(d) <==> waits(h, d, low2, high2) || stays(
            h,
            done,
            d,
            low2,
            high2,
        ) || received(done, d) by {
        assert(cur.objects.contains_key(d) <==> next.objects.contains_key(d));
    }
    assert forall|b: usize, d: usize| #[trigger] sent(done, b, d) implies next.objects[d]
        == h.objects[b].clean() by {
        assert(done.contains_key(b));
        assert(d < low);
    }
    assert forall|d: usize| #[trigger] waits(h, d, low2, high2) implies next.objects[d]
        == h.objects[d] by {
        assert(waits(h, d, low, high));
    }
    assert forall|d: usize| #[trigger] stays(h, done, d, low2, high2) implies next.objects[d]
        == h.objects[d].clean() by {
        if d != k {
            assert(stays(h, done, d, low, high));
        }
    }
    assert forall|r: usize|
        #![trigger next.roots.contains(r)]
        next.roots.contains(r) <==> (h.roots.contains(r) && (waits(h, r, low2, high2) || stays(
            h,
            done,
            r,
            low2,
            high2,
        ))) || root_received(h, done, r) by {
        assert(cur.roots.contains(r) <==> next.roots.contains(r));
    }
    assert forall|b: usize| #[trigger] done.contains_key(b) implies b > high2 && done[b]
        < low2 by {}
}

/// An unmarked object that the far finger passes over is freed.
proof fn lemma_finger_free(
    h: HeapView,
    cur: HeapView,
    next: HeapView,
    done: Map<usize, usize>,
    low: int,
    high: int,
    k: usize,
)
    requires
        fingering(h, cur, done, low, high),
        paired(h, done, low, high),
        h.objects.contains_key(k),
        !h.objects[k].marked,
        low <= k <= high,
        forall|d: usize| #[trigger] h.objects.contains_key(d) && d <= high ==> d <= k,
        next.objects == cur.objects.remove(k),
        next.roots == cur.roots.remove(k),
        next.cells == cur.cells,
        next.alignment == cur.alignment,
    ensures
        fingering(h, next, done, low, k - 1),
        paired(h, done, low, k - 1),
{
    let high2 = k - 1;
    assert forall|d: usize| waits(h, d, low, high) <==> waits(h, d, low, high2) || d == k by {}
    assert forall|d: usize| stays(h, done, d, low, high2) <==> stays(h, done, d, low, high) by {}
    assert forall|d: usize| #[trigger] received(done, d) implies d != k by {
        let b = choose|b: usize| #[trigger] sent(done, b, d);
        assert(done.contains_key(b));
    }
    assert forall|d: usize|
        #![trigger next.objects.contains_key(d)]
        next.objects.contains_key(d) <==> waits(h, d, low, high2) || stays(h, done, d, low, high2)
            || received(done, d) by {
        assert(cur.objects.contains_key(d) <==> waits(h, d, low, high) || stays(
            h,
            done,
            d,
            low,
            high,
        ) || received(done, d));
    }
    assert forall|b: usize, d: usize| #[trigger] sent(done, b, d) implies next.objects[d]
        == h.objects[b].clean() by {
        assert(received(done, d));
    }
    assert forall|d: usize| #[trigger] waits(h, d, low, high2) implies next.objects[d]
        == h.objects[d] by {
        assert(waits(h, d, low, high));
    }
    assert forall|d: usize| #[trigger] stays(h, done, d, low, high2) implies next.objects[d]
        == h.objects[d].clean() by {
        assert(stays(h, done, d, low, high));
    }
    assert forall|r: usize|
        #![trigger next.roots.contains(r)]
        next.roots.contains(r) <==> (h.roots.contains(r) && (waits(h, r, low, high2) || stays(
            h,
            done,
            r,
            low,
            high2,
        ))) || root_received(h, done, r) by {
        assert(cur.roots.contains(r) <==> (h.roots.contains(r) && (waits(h, r, low, high)
            || stays(h, done, r, low, high))) || root_received(h, done, r));
        if root_received(h, done, r) {
            let b = choose|b: usize| #[trigger] sent(done, b, r) && h.roots.contains(b);
            assert(received(done, r));
        }
    }
    assert forall|b: usize| #[trigger] done.contains_key(b) implies b > high2 by {}
}

/// A marked object at the far finger moves into the place of an
/// unmarked one at the near finger.
proof fn lemma_finger_move(
    h: HeapView,
    cur: HeapView,
    next: HeapView,
    done: Map<usize, usize>,
    low: int,
    high: int,
    near: usize,
    far: usize,
)
    requires
        fingering(h, cur, done, low, high),
        paired(h, done, low, high),
        h.objects.contains_key(near),
        h.objects.contains_key(far),
        !h.objects[near].marked,
        h.objects[far].marked,
        low <= near < far <= high,
        h.objects[far].fields.len() <= h.objects[near].fields.len(),
        forall|d: usize| #[trigger] h.objects.contains_key(d) && low <= d ==> near <= d,
        forall|d: usize| #[trigger] h.objects.contains_key(d) && d <= high ==> d <= far,
        next.objects == cur.objects.remove(near).remove(far).insert(near, h.objects[far].clean()),
        next.roots == if cur.roots.contains(far) {
            cur.roots.remove(near).remove(far).insert(near)
        } else {
            cur.roots.remove(near)
        },
        next.cells == cur.cells,
        next.alignment == cur.alignment,
    ensures
        fingering(h, next, done.insert(far, near), near + 1, far - 1),
        paired(h, done.insert(far, near), near + 1, far - 1),
{
    let done2 = done.insert(far, near);
    let low2 = near + 1;
    let high2 = far - 1;
    assert(sent(done2, far, near));
    assert(!done.contains_key(far)) by {
        if done.contains_key(far) {
            assert(far > high);
        }
    }
    assert forall|d: usize| #[trigger] received(done, d) implies d != near && d != far by {
        let b = choose|b: usize| #[trigger] sent(done, b, d);
        assert(done.contains_key(b));
    }
    assert forall|b: usize, d: usize| sent(done2, b, d) <==> sent(done, b, d) || (b == far && d
        == near) by {}
    assert forall|d: usize| received(done2, d) <==> received(done, d) || d == near by {
        if received(done2, d) {
            let b = choose|b: usize| #[trigger] sent(done2, b, d);
            if b != far {
                assert(sent(done, b, d));
            }
        }
        if received(done, d) {
            let b = choose|b: usize| #[trigger] sent(done, b, d);
            assert(sent(done2, b, d));
        }
    }
    assert forall|d: usize|
        root_received(h, done2, d) <==> root_received(h, done, d) || (d == near
            && h.roots.contains(far)) by {
        if root_received(h, done2, d) {
            let b = choose|b: usize| #[trigger] sent(done2, b, d) && h.roots.contains(b);
            if b != far {
                assert(sent(done, b, d));
            }
        }
        if root_received(h, done, d) {
            let b = choose|b: usize| #[trigger] sent(done, b, d) && h.roots.contains(b);
            assert(sent(done2, b, d));
        }
    }
    assert forall|d: usize|
        waits(h, d, low, high) <==> waits(h, d, low2, high2) || d == near || d == far by {}
    assert forall|d: usize| stays(h, done2, d, low2, high2) <==> stays(h, done, d, low, high) by {
        if stays(h, done, d, low, high) && d == far {
            assert(false);
        }
    }
    assert forall|d: usize|
        #![trigger next.objects.contains_key(d)]
        next.objects.contains_key(d) <==> waits(h, d, low2, high2) || stays(
            h,
            done2,
            d,
            low2,
            high2,
        ) || received(done2, d) by {
        assert(cur.objects.contains_key(d) <==> waits(h, d, low, high) || stays(
            h,
            done,
            d,
            low,
            high,
        ) || received(done, d));
    }
    assert forall|b: usize, d: usize| #[trigger] sent(done2, b, d) implies next.objects[d]
        == h.objects[b].clean() by {
        if b != far {
            assert(sent(done, b, d));
            assert(received(done, d));
        }
    }
    assert forall|d: usize| #[trigger] waits(h, d, low2, high2) implies next.objects[d]
        == h.objects[d] by {
        assert(waits(h, d, low, high));
    }
    assert forall|d: usize| #[trigger] stays(h, done2, d, low2, high2) implies next.objects[d]
        == h.objects[d].clean() by {
        assert(stays(h, done, d, low, high));
    }
    assert(cur.roots.contains(far) <==> h.roots.contains(far)) by {
        assert(waits(h, far, low, high));
        if root_received(h, done, far) {
            let b = choose|b: usize| #[trigger] sent(done, b, far) && h.roots.contains(b);
            assert(received(done, far));
        }
    }
    assert forall|r: usize|
        #![trigger next.roots.contains(r)]
        next.roots.contains(r) <==> (h.roots.contains(r) && (waits(h, r, low2, high2) || stays(
            h,
            done2,
            r,
            low2,
            high2,
        ))) || root_received(h, done2, r) by {
        assert(cur.roots.contains(r) <==> (h.roots.contains(r) && (waits(h, r, low, high)
            || stays(h, done, r, low, high))) || root_received(h, done, r));
        if root_received(h, done, r) {
            let b = choose|b: usize| #[trigger] sent(done, b, r) && h.roots.contains(b);
            assert(received(done, r));
        }
    }
    assert forall|a: usize, b: usize|
        #![trigger done2.contains_key(a), done2.contains_key(b)]
        done2.contains_key(a) && done2.contains_key(b) && done2[a] == done2[b] implies a == b by {
        if a == far && b != far {
            assert(done.contains_key(b));
            assert(sent(done, b, near));
            assert(received(done, near));
        }
        if b == far && a != far {
            assert(done.contains_key(a));
            assert(sent(done, a, near));
            assert(received(done, near));
        }
        if a != far && b != far {
            assert(done.contains_key(a) && done.contains_key(b));
        }
    }
    assert forall|b: usize| #[trigger] done2.contains_key(b) implies {
        &&& h.objects.contains_key(b)
        &&& h.objects[b].marked
        &&& b > high2
        &&& h.objects.contains_key(done2[b])
        &&& !h.objects[done2[b]].marked
        &&& done2[b] < low2
        &&& done2[b] < b
        &&& h.objects[b].fields.len() <= h.objects[done2[b]].fields.len()
    } by {
        if b != far {
            assert(done.contains_key(b));
        }
    }
}

/// The first pass: the two fingers go over the objects, move what
/// fits, free what is unmarked, and clear the marks. It returns the
/// forwarding table of the moves.
pub fn relocate(heap: &mut Heap, eventlog: &mut Vec<GCEvent>) -> (table: HashMap<usize, usize>)
    requires
        old(heap)@.shaped(),
        forall|b: usize| #[trigger]
            old(heap)@.objects.contains_key(b) ==> old(heap)@.objects[b].fwd_addr is None,
    ensures
        exists|keys: Seq<usize>|
            {
                &&& #[trigger] lists(keys, old(heap)@.objects.dom())
                &&& fingering(old(heap)@, final(heap)@, moves(old(heap)@, keys), 1, 0)
                &&& matched(old(heap)@, moves(old(heap)@, keys))
                &&& table@ == field_table(old(heap)@, moves(old(heap)@, keys))
                &&& log_of(final(eventlog)@) == log_of(old(eventlog)@).push(phase("relocate"@))
                    + finger_events(old(heap)@, keys, 0, keys.len() - 1)
            },
        final(heap)@.shaped(),
        old(eventlog)@.len() <= final(eventlog)@.len(),
        forall|i: int| 0 <= i < old(eventlog)@.len() ==> final(eventlog)@[i] == old(eventlog)@[i],
{
    let ghost log0 = eventlog@;
    let announce = GCEvent::phase("relocate".to_owned());
    proof {
        lemma_log_push(eventlog@, announce);
    }
    eventlog.push(announce);
    let ghost head = log_of(log0).push(phase("relocate"@));
    let ghost h = heap@;
    let keys = sorted_keys(&heap.objects);
    let n = keys.len();
    let mut table: HashMap<usize, usize> = HashMap::new();
    let ghost mut done: Map<usize, usize> = Map::empty();
    if n == 0 {
        proof {
            assert forall|d: usize| !h.objects.contains_key(d) by {
                assert(!keys@.contains(d));
            }
            lemma_table_empty(h, table@);
            lemma_finger_none(h, heap@);
            assert(moves(h, keys@) == done);
            assert(head + finger_events(h, keys@, 0, keys@.len() - 1) =~= head);
            assert(lists(keys@, h.objects.dom()) && fingering(h, heap@, moves(h, keys@), 1, 0)
                && matched(h, moves(h, keys@)) && table@ == field_table(h, moves(h, keys@))
                && log_of(eventlog@) == head + finger_events(h, keys@, 0, keys@.len() - 1));
        }
        return table;
    }
    let ghost total = finger_events(h, keys@, 0, n - 1);
    let mut lo: usize = 0;
    let mut hi: usize = n - 1;
    let ghost mut low: int = 0;
    let ghost mut high: int = usize::MAX as int;
    proof {
        lemma_table_empty(h, table@);
        lemma_finger_start(h, heap@);
    }
    while lo < hi
        invariant
            n == keys.len(),
            lo <= hi < n,
            h.shaped(),
            forall|b: usize| #[trigger] h.objects.contains_key(b) ==> h.objects[b].fwd_addr is None,
            lists(keys@, h.objects.dom()),
            forall|j: int| 0 <= j < n ==> (low <= #[trigger] keys@[j] <= high <==> lo <= j <= hi),
            0 <= low,
            high <= usize::MAX,
            fingering(h, heap@, done, low, high),
            paired(h, done, low, high),
            heap@.shaped(),
            moves_from(h, keys@, lo as int, hi as int, done) == moves(h, keys@),
            table@ == field_table(h, done),
            h == old(heap)@,
            log0 == old(eventlog)@,
            log0.len() <= eventlog@.len(),
            forall|t: int| 0 <= t < log0.len() ==> eventlog@[t] == log0[t],
            head == log_of(log0).push(phase("relocate"@)),
            total == finger_events(h, keys@, 0, n - 1),
            log_of(eventlog@) + finger_events(h, keys@, lo as int, hi as int) == head + total,
        decreases hi - lo,
    {
        let near = keys[lo];
        let far = keys[hi];
        let ghost cur = heap@;
        let ghost log = eventlog@;
        let ghost rest = finger_events(h, keys@, lo as int, hi as int);
        proof {
            assert(keys@.contains(keys@[lo as int]));
            assert(keys@.contains(keys@[hi as int]));
            assert(keys@[lo as int] < keys@[hi as int]);
            assert(waits(h, near, low, high) && waits(h, far, low, high));
            assert(cur.objects.contains_key(near) && cur.objects.contains_key(far));
            lemma_shaped_fits(cur);
            lemma_finger_ends(h, keys@, lo as int, hi as int, low, high);
        }
        if crate::gc::object_marker::is_marked(heap, near) {
            set_header(heap, near, ObjHeader { marked: false, fwd_addr: None });
            proof {
                lemma_headers_keep_layout(cur, heap@);
                lemma_finger_stay(h, cur, heap@, done, low, high, near, near + 1, high);
                low = near + 1;
            }
            lo += 1;
        } else if !crate::gc::object_marker::is_marked(heap, far) {
            let size = heap.objects.get(&far).unwrap().size();
            let freed = heap.free_object(far);
            let event = GCEvent::FreeObject { addr: far, size };
            proof {
                lemma_log_push(log, event);
                assert(log_of(log).push(event@) + finger_events(h, keys@, lo as int, hi - 1)
                    =~= log_of(log) + rest);
            }
            eventlog.push(event);
            proof {
                assert(freed is Ok);
                lemma_finger_free(h, cur, heap@, done, low, high, far);
                high = far - 1;
            }
            hi -= 1;
        } else if can_fit_into(heap, far, near) {
            let size = heap.objects.get(&near).unwrap().size();
            let ghost table0 = table@;
            save_forward_ptrs(heap, &mut table, far, near);
            let freed = heap.free_object(near);
            let event = GCEvent::FreeObject { addr: near, size };
            proof {
                lemma_log_push(log, event);
            }
            eventlog.push(event);
            let ghost log1 = eventlog@;
            let ghost mid = heap@;
            proof {
                assert(freed is Ok);
                lemma_shaped_fits(mid);
                assert(mid.objects.contains_key(far));
                assert(mid.room_at(far, near)) by {
                    assert forall|x: int|
                        near <= x < near + mid.objects[far].fields.len()
                            implies crate::free_list::run_covers(
                        mid.free,
                        x,
                    ) || in_span(mid, far, x) by {
                        assert(in_span(cur, near, x));
                    }
                }
            }
            let moved = crate::gc::common::move_object(heap, eventlog, far, near);
            let ghost mid2 = heap@;
            set_header(heap, near, ObjHeader { marked: false, fwd_addr: None });
            proof {
                assert(moved);
                let moving = eventlog@[log1.len() as int];
                assert(eventlog@ == log1.push(moving));
                lemma_log_push(log1, moving);
                assert(log_of(log).push(event@).push(moving@) + finger_events(
                    h,
                    keys@,
                    lo + 1,
                    hi - 1,
                ) =~= log_of(log) + rest);
                lemma_headers_keep_layout(mid2, heap@);
                assert(heap@.objects =~= cur.objects.remove(near).remove(far).insert(
                    near,
                    h.objects[far].clean(),
                ));
                assert(heap@.roots =~= if cur.roots.contains(far) {
                    cur.roots.remove(near).remove(far).insert(near)
                } else {
                    cur.roots.remove(near)
                });
                lemma_finger_move(h, cur, heap@, done, low, high, near, far);
                lemma_table_step(h, done, far, near, table0, table@);
                done = done.insert(far, near);
                low = near + 1;
                high = far - 1;
            }
            lo += 1;
            hi -= 1;
            if lo > hi {
                // the fingers have met between two objects: nothing is left
                proof {
                    assert(moves_from(h, keys@, lo as int, hi as int, done) == done);
                    assert forall|d: usize| #[trigger] h.objects.contains_key(d) implies !(low <= d
                        <= high) by {}
                    lemma_finger_done(h, heap@, done, low, high);
                    assert(log_of(eventlog@) + finger_events(h, keys@, lo as int, hi as int)
                        =~= log_of(eventlog@));
                    assert(lists(keys@, h.objects.dom()) && fingering(
                        h,
                        heap@,
                        moves(h, keys@),
                        1,
                        0,
                    ) && matched(h, moves(h, keys@)) && table@ == field_table(h, moves(h, keys@))
                        && log_of(eventlog@) == head + finger_events(
                        h,
                        keys@,
                        0,
                        keys@.len() - 1,
                    ));
                }
                return table;
            }
        } else {
            set_header(heap, far, ObjHeader { marked: false, fwd_addr: None });
            proof {
                lemma_headers_keep_layout(cur, heap@);
                lemma_finger_stay(h, cur, heap@, done, low, high, far, low, far - 1);
                high = far - 1;
            }
            hi -= 1;
        }
        proof {
            assert forall|j: int| 0 <= j < n implies (low <= #[trigger] keys@[j] <= high <==> lo
                <= j <= hi) by {
                if j < lo {
                    if j < lo - 1 {
                        assert(keys@[j] < keys@[lo - 1]);
                    }
                }
                if j > hi {
                    if j > hi + 1 {
                        assert(keys@[hi + 1] < keys@[j]);
                    }
                }
            }
        }
    }
    // one object is left between the fingers
    let last = keys[lo];
    let ghost cur = heap@;
    let ghost log = eventlog@;
    let ghost rest = finger_events(h, keys@, lo as int, hi as int);
    proof {
        assert(keys@.contains(keys@[lo as int]));
        assert(waits(h, last, low, high));
        assert(cur.objects.contains_key(last));
        lemma_shaped_fits(cur);
        lemma_finger_ends(h, keys@, lo as int, hi as int, low, high);
        assert(moves_from(h, keys@, lo as int, hi as int, done) == done);
    }
    if crate::gc::object_marker::is_marked(heap, last) {
        set_header(heap, last, ObjHeader { marked: false, fwd_addr: None });
        proof {
            lemma_headers_keep_layout(cur, heap@);
            lemma_finger_stay(h, cur, heap@, done, low, high, last, last + 1, high);
            assert forall|d: usize| #[trigger] h.objects.contains_key(d) implies !(last + 1 <= d
                <= high) by {}
            lemma_finger_done(h, heap@, done, last + 1, high);
            assert(log_of(log) + rest =~= log_of(log));
        }
    } else {
        let size = heap.objects.get(&last).unwrap().size();
        let freed = heap.free_object(last);
        let event = GCEvent::FreeObject { addr: last, size };
        proof {
            lemma_log_push(log, event);
            assert(log_of(log).push(event@) =~= log_of(log) + rest);
        }
        eventlog.push(event);
        proof {
            assert(freed is Ok);
            lemma_finger_free(h, cur, heap@, done, low, high, last);
            assert forall|d: usize| #[trigger] h.objects.contains_key(d) implies !(low <= d
                <= last - 1) by {}
            lemma_finger_done(h, heap@, done, low, last - 1);
        }
    }
    proof {
        assert(lists(keys@, h.objects.dom()) && fingering(h, heap@, moves(h, keys@), 1, 0)
            && matched(h, moves(h, keys@)) && table@ == field_table(h, moves(h, keys@))
            && log_of(eventlog@) == head + finger_events(h, keys@, 0, keys@.len() - 1));
    }
    table
}

/// Before the fingers have moved, every object waits.
proof fn lemma_finger_start(h: HeapView, cur: HeapView)
    requires
        cur == h,
        h.shaped(),
    ensures
        fingering(h, cur, Map::<usize, usize>::empty(), 0, usize::MAX as int),
        paired(h, Map::<usize, usize>::empty(), 0, usize::MAX as int),
{
    let done = Map::<usize, usize>::empty();
    assert forall|d: usize| !received(done, d) by {
        if received(done, d) {
            let b = choose|b: usize| #[trigger] sent(done, b, d);
        }
    }
    assert forall|d: usize| !root_received(h, done, d) by {
        if root_received(h, done, d) {
            let b = choose|b: usize| #[trigger] sent(done, b, d) && h.roots.contains(b);
        }
    }
}

/// A heap without objects is rearranged as it is.
proof fn lemma_finger_none(h: HeapView, cur: HeapView)
    requires
        cur == h,
        forall|d: usize| !h.objects.contains_key(d),
        h.shaped(),
    ensures
        fingering(h, cur, Map::<usize, usize>::empty(), 1, 0),
        matched(h, Map::<usize, usize>::empty()),
{
    let done = Map::<usize, usize>::empty();
    assert forall|d: usize| !received(done, d) by {
        if received(done, d) {
            let b = choose|b: usize| #[trigger] sent(done, b, d);
        }
    }
    assert forall|d: usize| !root_received(h, done, d) by {
        if root_received(h, done, d) {
            let b = choose|b: usize| #[trigger] sent(done, b, d) && h.roots.contains(b);
        }
    }
    assert forall|r: usize| #![trigger cur.roots.contains(r)] !cur.roots.contains(r) by {
        if cur.roots.contains(r) {
            assert(h.objects.dom().contains(r));
        }
    }
}

/// The objects at the fingers are the first and the last that wait.
proof fn lemma_finger_ends(h: HeapView, keys: Seq<usize>, lo: int, hi: int, low: int, high: int)
    requires
        lists(keys, h.objects.dom()),
        0 <= lo <= hi < keys.len(),
        forall|j: int|
            0 <= j < keys.len() ==> (low <= #[trigger] keys[j] <= high <==> lo <= j <= hi),
    ensures
        forall|d: usize| #[trigger] h.objects.contains_key(d) && low <= d ==> keys[lo] <= d,
        forall|d: usize| #[trigger] h.objects.contains_key(d) && d <= high ==> d <= keys[hi],
{
    assert forall|d: usize| #[trigger] h.objects.contains_key(d) && low <= d implies keys[lo]
        <= d by {
        assert(keys.contains(d));
        let j = choose|j: int| 0 <= j < keys.len() && keys[j] == d;
        if j < lo {
            assert(keys[j] < keys[lo]);
        }
        if j > lo {
            assert(keys[lo] < keys[j]);
        }
    }
    assert forall|d: usize| #[trigger] h.objects.contains_key(d) && d <= high implies d
        <= keys[hi] by {
        assert(keys.contains(d));
        let j = choose|j: int| 0 <= j < keys.len() && keys[j] == d;
        if j > hi {
            assert(keys[hi] < keys[j]);
        }
        if j < hi {
            assert(keys[j] < keys[hi]);
        }
    }
}

/// Once no object waits, the bounds do not matter.
proof fn lemma_finger_done(h: HeapView, cur: HeapView, done: Map<usize, usize>, low: int, high: int)
    requires
        fingering(h, cur, done, low, high),
        paired(h, done, low, high),
        forall|d: usize| #[trigger] h.objects.contains_key(d) ==> !(low <= d <= high),
    ensures
        fingering(h, cur, done, 1, 0),
        matched(h, done),
{
    assert forall|d: usize| stays(h, done, d, 1, 0) <==> stays(h, done, d, low, high) by {}
    assert forall|d: usize| !waits(h, d, low, high) && !waits(h, d, 1, 0) by {}
    assert forall|d: usize|
        #![trigger cur.objects.contains_key(d)]
        cur.objects.contains_key(d) <==> waits(h, d, 1, 0) || stays(h, done, d, 1, 0) || received(
            done,
            d,
        ) by {
        assert(cur.objects.contains_key(d) <==> waits(h, d, low, high) || stays(
            h,
            done,
            d,
            low,
            high,
        ) || received(done, d));
    }
    assert forall|d: usize| #[trigger] stays(h, done, d, 1, 0) implies cur.objects[d]
        == h.objects[d].clean() by {
        assert(stays(h, done, d, low, high));
    }
    assert forall|r: usize|
        #![trigger cur.roots.contains(r)]
        cur.roots.contains(r) <==> (h.roots.contains(r) && (waits(h, r, 1, 0) || stays(
            h,
            done,
            r,
            1,
            0,
        ))) || root_received(h, done, r) by {
        assert(cur.roots.contains(r) <==> (h.roots.contains(r) && (waits(h, r, low, high)
            || stays(h, done, r, low, high))) || root_received(h, done, r));
    }
}

/// No move, no entry.
proof fn lemma_table_empty(h: HeapView, table: Map<usize, usize>)
    requires
        table == Map::<usize, usize>::empty(),
    ensures
        table == field_table(h, Map::<usize, usize>::empty()),
{
    let done = Map::<usize, usize>::empty();
    assert forall|a: usize| !field_table(h, done).contains_key(a) by {
        if field_table(h, done).contains_key(a) {
            let b = choose|b: usize| #[trigger] carries(h, done, b, a);
        }
    }
    assert(table =~= field_table(h, done));
}

/// A moved object carried each of its addresses alone.
proof fn lemma_carries_one(h: HeapView, done: Map<usize, usize>, b1: usize, b2: usize, a: usize)
    requires
        h.shaped(),
        forall|b: usize| #[trigger] done.contains_key(b) ==> h.objects.contains_key(b),
        carries(h, done, b1, a),
        carries(h, done, b2, a),
    ensures
        b1 == b2,
{
    assert(h.objects.contains_key(b1) && h.objects.contains_key(b2));
}

/// The table after the fields of one more moved object were entered.
proof fn lemma_table_step(
    h: HeapView,
    done: Map<usize, usize>,
    far: usize,
    near: usize,
    table: Map<usize, usize>,
    table2: Map<usize, usize>,
)
    requires
        h.shaped(),
        forall|b: usize| #[trigger] done.contains_key(b) ==> h.objects.contains_key(b),
        h.objects.contains_key(far),
        !done.contains_key(far),
        table == field_table(h, done),
        forall|a: usize|
            #![trigger table2.contains_key(a)]
            table2.contains_key(a) <==> table.contains_key(a) || in_span(h, far, a as int),
        forall|a: usize| #[trigger]
            table2.contains_key(a) ==> table2[a] == if in_span(h, far, a as int) {
                (near + (a - far)) as usize
            } else {
                table[a]
            },
    ensures
        table2 == field_table(h, done.insert(far, near)),
{
    let done2 = done.insert(far, near);
    let t2 = field_table(h, done2);
    assert forall|a: usize| table2.contains_key(a) <==> t2.contains_key(a) by {
        if table.contains_key(a) {
            let b = choose|b: usize| #[trigger] carries(h, done, b, a);
            assert(carries(h, done2, b, a));
        }
        if in_span(h, far, a as int) {
            assert(carries(h, done2, far, a));
        }
        if t2.contains_key(a) {
            let b = choose|b: usize| #[trigger] carries(h, done2, b, a);
            if b != far {
                assert(carries(h, done, b, a));
            }
        }
    }
    assert forall|a: usize| #[trigger] table2.contains_key(a) implies table2[a] == t2[a] by {
        let b2 = choose|b: usize| #[trigger] carries(h, done2, b, a);
        assert(carries(h, done2, b2, a));
        if in_span(h, far, a as int) {
            assert(carries(h, done2, far, a));
            lemma_carries_one(h, done2, b2, far, a);
        } else {
            assert(carries(h, done, b2, a));
            let b = choose|b: usize| #[trigger] carries(h, done, b, a);
            lemma_carries_one(h, done, b, b2, a);
        }
    }
    assert(table2 =~= t2);
}

/// The field after the references were updated from the table.
pub fn retable_field(forwarding_pointers: &HashMap<usize, usize>, field: Field) -> (moved: Field)
    ensures
        moved == retabled(forwarding_pointers@, field),
{
    match field {
        Field::Ref { addr: Address::Ptr(a) } => match forwarding_pointers.get(&a) {
            Some(to) => Field::Ref { addr: Address::Ptr(*to) },
            None => field,
        },
        _ => field,
    }
}

/// `cur` is `h` with the references of the objects below `limit` updated from `table`.
pub open spec fn retabling(h: HeapView, cur: HeapView, table: Map<usize, usize>, limit: int) -> bool {
    &&& cur.objects.dom() == h.objects.dom()
    &&& forall|b: usize| #[trigger]
        cur.objects.contains_key(b) ==> cur.objects[b].marked == h.objects[b].marked
            && cur.objects[b].fwd_addr == h.objects[b].fwd_addr && cur.objects[b].fields.len()
            == h.objects[b].fields.len() && forall|j: int|
            0 <= j < h.objects[b].fields.len() ==> #[trigger] cur.objects[b].fields[j] == if b
                < limit {
                retabled(table, h.objects[b].fields[j])
            } else {
                h.objects[b].fields[j]
            }
    &&& cur.roots == h.roots
    &&& cur.free == h.free
    &&& cur.cells == h.cells
    &&& cur.alignment == h.alignment
}

/// Updating references changes no object's place or size.
pub proof fn lemma_retabling_keeps(h: HeapView, cur: HeapView, table: Map<usize, usize>, limit: int)
    requires
        retabling(h, cur, table, limit),
    ensures
        h.shaped() ==> cur.shaped(),
        h.clean() ==> cur.clean(),
{
    if h.shaped() {
        assert forall|x: int| cur.in_object(x) <==> h.in_object(x) by {
            if cur.in_object(x) {
                let b = choose|b: usize| #[trigger]
                    cur.objects.contains_key(b) && b <= x < b + cur.objects[b].fields.len();
                assert(h.objects.contains_key(b) && b <= x < b + h.objects[b].fields.len());
            }
            if h.in_object(x) {
                let b = choose|b: usize| #[trigger]
                    h.objects.contains_key(b) && b <= x < b + h.objects[b].fields.len();
                assert(cur.objects.contains_key(b) && b <= x < b + cur.objects[b].fields.len());
            }
        }
        assert forall|a: usize, b: usize|
            #![trigger cur.objects.contains_key(a), cur.objects.contains_key(b)]
            cur.objects.contains_key(a) && cur.objects.contains_key(b) && a < b implies a
            + cur.objects[a].fields.len() <= b by {
            assert(h.objects.contains_key(a) && h.objects.contains_key(b));
        }
        assert forall|b: usize| #[trigger] cur.objects.contains_key(b)
            implies cur.objects[b].fields.len()
            >= 1 && b + cur.objects[b].fields.len() <= cur.size() && crate::heap::aligned(
            b,
            cur.alignment,
        ) by {
            assert(h.objects.contains_key(b));
        }
        assert(cur.shaped());
    }
    if h.clean() {
        assert forall|b: usize| #[trigger] cur.objects.contains_key(b)
            implies !cur.objects[b].marked
            && cur.objects[b].fwd_addr is None by {
            assert(h.objects.contains_key(b));
        }
    }
}

/// The event of the update of a field: none where the field stays as it is.
pub open spec fn retable_update(table: Map<usize, usize>, field: Field) -> Seq<GCEventView> {
    match (field, retabled(table, field)) {
        (Field::Ref { addr: Address::Ptr(from) }, Field::Ref { addr: Address::Ptr(to) }) => if from
            != to {
            seq![GCEventView::UpdateFwdPtr { from, to }]
        } else {
            Seq::empty()
        },
        _ => Seq::empty(),
    }
}

/// The events of the update of the first `n` of the fields, in their order.
pub open spec fn fields_retables(table: Map<usize, usize>, fields: Seq<Field>, n: int) -> Seq<
    GCEventView,
>
    decreases n,
{
    if n <= 0 {
        Seq::empty()
    } else {
        fields_retables(table, fields, n - 1) + retable_update(table, fields[n - 1])
    }
}

/// The events of the update of the objects that start below `limit`, in
/// the order of their addresses.
pub open spec fn retables_below(h: HeapView, table: Map<usize, usize>, limit: int) -> Seq<
    GCEventView,
>
    decreases limit,
{
    if limit <= 0 {
        Seq::empty()
    } else {
        retables_below(h, table, limit - 1) + if h.objects.contains_key((limit - 1) as usize) {
            fields_retables(
                table,
                h.objects[(limit - 1) as usize].fields,
                h.objects[(limit - 1) as usize].fields.len() as int,
            )
        } else {
            Seq::empty()
        }
    }
}

/// No events over a stretch without an object.
pub proof fn lemma_retables_gap(h: HeapView, table: Map<usize, usize>, from: int, limit: int)
    requires
        0 <= from <= limit <= usize::MAX + 1,
        forall|b: usize| #[trigger] h.objects.contains_key(b) ==> !(from <= b < limit),
    ensures
        retables_below(h, table, limit) == retables_below(h, table, from),
    decreases limit - from,
{
    if from < limit {
        lemma_retables_gap(h, table, from, limit - 1);
        assert(retables_below(h, table, limit - 1) + Seq::<GCEventView>::empty()
            =~= retables_below(h, table, limit - 1));
    }
}

/// The second pass: every reference to an address of the forwarding
/// table is made to refer to what the table gives for it.
pub fn update_references(
    heap: &mut Heap,
    forwarding_pointers: &HashMap<usize, usize>,
    eventlog: &mut Vec<GCEvent>,
)
    ensures
        retabling(old(heap)@, final(heap)@, forwarding_pointers@, usize::MAX + 1),
        old(eventlog)@.len() <= final(eventlog)@.len(),
        forall|i: int| 0 <= i < old(eventlog)@.len() ==> final(eventlog)@[i] == old(eventlog)@[i],
        log_of(final(eventlog)@) == log_of(old(eventlog)@) + retables_below(
            old(heap)@,
            forwarding_pointers@,
            usize::MAX + 1,
        ),
{
    let ghost log0 = eventlog@;
    let ghost head = log_of(log0);
    proof {
        assert(head + Seq::<GCEventView>::empty() =~= head);
    }
    let ghost h = heap@;
    let ghost table = forwarding_pointers@;
    let keys = sorted_keys(&heap.objects);
    let n = keys.len();
    let ghost mut limit: int = 0;
    let mut i: usize = 0;
    while i < n
        invariant
            i <= n,
            n == keys.len(),
            table == forwarding_pointers@,
            lists(keys@, h.objects.dom()),
            0 <= limit <= usize::MAX + 1,
            i < n ==> limit <= keys@[i as int],
            forall|b: usize| #[trigger]
                h.objects.contains_key(b) && b >= limit ==> i < n && b >= keys@[i as int],
            retabling(h, heap@, table, limit),
            log0.len() <= eventlog@.len(),
            forall|t: int| 0 <= t < log0.len() ==> eventlog@[t] == log0[t],
            head == log_of(log0),
            log_of(eventlog@) == head + retables_below(h, table, limit),
        decreases n - i,
    {
        let k = keys[i];
        let ghost cur = heap@;
        proof {
            assert(keys@.contains(keys@[i as int]));
            assert(h.objects.contains_key(k) && cur.objects.contains_key(k));
            lemma_retables_gap(h, table, limit, k as int);
        }
        let ghost sofar = retables_below(h, table, k as int);
        let ghost raw = heap.objects@;
        let mut taken = heap.objects.remove(&k).unwrap();
        let mut j: usize = 0;
        while j < taken.fields.len()
            invariant
                j <= taken.fields.len(),
                table == forwarding_pointers@,
                taken@.marked == cur.objects[k].marked,
                taken@.fwd_addr == cur.objects[k].fwd_addr,
                taken@.fields.len() == cur.objects[k].fields.len(),
                forall|t: int|
                    0 <= t < taken@.fields.len() ==> #[trigger] taken@.fields[t] == if t < j {
                        retabled(table, cur.objects[k].fields[t])
                    } else {
                        cur.objects[k].fields[t]
                    },
                log0.len() <= eventlog@.len(),
                forall|t: int| 0 <= t < log0.len() ==> eventlog@[t] == log0[t],
                log_of(eventlog@) == head + (sofar + fields_retables(
                    table,
                    cur.objects[k].fields,
                    j as int,
                )),
            decreases taken.fields.len() - j,
        {
            let field = taken.fields[j];
            let updated = retable_field(forwarding_pointers, field);
            let ghost log = eventlog@;
            let ghost done = fields_retables(table, cur.objects[k].fields, j as int);
            match (field, updated) {
                (Field::Ref { addr: Address::Ptr(from) }, Field::Ref { addr: Address::Ptr(to) }) => {
                    if from != to {
                        let event = GCEvent::UpdateFwdPtr { from, to };
                        proof {
                            lemma_log_push(log, event);
                            assert((head + (sofar + done)).push(event@) =~= head + (sofar + (done
                                + seq![event@])));
                        }
                        eventlog.push(event);
                    } else {
                        proof {
                            assert(done + Seq::<GCEventView>::empty() =~= done);
                        }
                    }
                },
                _ => {
                    proof {
                        assert(done + Seq::<GCEventView>::empty() =~= done);
                    }
                },
            }
            taken.fields.set(j, updated);
            j += 1;
        }
        heap.objects.insert(k, taken);
        proof {
            lemma_views_remove(raw, k);
            lemma_views_insert(raw.remove(k), k, taken);
            assert(heap@.objects.dom() =~= h.objects.dom());
            assert(heap@.objects =~= cur.objects.insert(k, taken@));
            limit = k + 1;
            assert(cur.objects[k].fields == h.objects[k].fields) by {
                assert forall|t: int| 0 <= t < h.objects[k].fields.len()
                    implies #[trigger] cur.objects[k].fields[t]
                    == h.objects[k].fields[t] by {}
                assert(cur.objects[k].fields =~= h.objects[k].fields);
            }
            assert(log_of(eventlog@) == head + retables_below(h, table, limit)) by {
                assert(head + (sofar + fields_retables(
                    table,
                    h.objects[k].fields,
                    h.objects[k].fields.len() as int,
                )) =~= (head + sofar) + fields_retables(
                    table,
                    h.objects[k].fields,
                    h.objects[k].fields.len() as int,
                ));
            }
            assert forall|b: usize| #[trigger]
                h.objects.contains_key(b) && b >= limit implies i + 1 < n && b >= keys@[i
                + 1] by {
                assert(keys@.contains(b));
                let j = choose|j: int| 0 <= j < keys@.len() && keys@[j] == b;
                if j <= i {
                    assert(keys@[j] <= keys@[i as int]);
                }
                if j > i + 1 {
                    assert(keys@[i + 1] < keys@[j]);
                }
            }
            if i + 1 < n {
                assert(keys@[i as int] < keys@[i + 1]);
            }
            assert forall|b: usize| #[trigger] heap@.objects.contains_key(b)
                implies heap@.objects[b].marked
                == h.objects[b].marked && heap@.objects[b].fwd_addr == h.objects[b].fwd_addr
                && heap@.objects[b].fields.len() == h.objects[b].fields.len() && forall|j: int|
                0 <= j < h.objects[b].fields.len() ==> #[trigger] heap@.objects[b].fields[j] == if b
                    < limit {
                    retabled(table, h.objects[b].fields[j])
                } else {
                    h.objects[b].fields[j]
                } by {
                assert(cur.objects.contains_key(b));
            }
        }
        i += 1;
    }
    proof {
        lemma_retables_gap(h, table, limit, usize::MAX + 1);
        let h2 = heap@;
        assert forall|b: usize| #[trigger] h2.objects.contains_key(b) implies h2.objects[b].marked
            == h.objects[b].marked && h2.objects[b].fwd_addr == h.objects[b].fwd_addr
            && h2.objects[b].fields.len() == h.objects[b].fields.len() && forall|j: int|
            0 <= j < h.objects[b].fields.len() ==> #[trigger] h2.objects[b].fields[j] == if b
                < usize::MAX + 1 {
                retabled(table, h.objects[b].fields[j])
            } else {
                h.objects[b].fields[j]
            } by {
            assert(h.objects.contains_key(b));
        }
    }
}

/// The two passes make a rearrangement.
proof fn lemma_rearranged(h: HeapView, mid: HeapView, after: HeapView, done: Map<usize, usize>)
    requires
        fingering(h, mid, done, 1, 0),
        matched(h, done),
        mid.shaped(),
        retabling(mid, after, field_table(h, done), usize::MAX + 1),
    ensures
        rearranged(h, done, after),
{
    let table = field_table(h, done);
    lemma_retabling_keeps(mid, after, table, usize::MAX + 1);
    assert forall|d: usize| #[trigger] mid.objects.contains_key(d) implies !mid.objects[d].marked
        && mid.objects[d].fwd_addr is None by {
        if stays(h, done, d, 1, 0) {
        } else {
            assert(received(done, d));
            let b = choose|b: usize| #[trigger] sent(done, b, d);
            assert(mid.objects[d] == h.objects[b].clean());
        }
    }
    assert(mid.clean());
    assert forall|d: usize|
        #![trigger after.objects.contains_key(d)]
        after.objects.contains_key(d) <==> stays(h, done, d, 1, 0) || received(done, d) by {
        assert(after.objects.contains_key(d) <==> mid.objects.contains_key(d));
    }
    assert forall|d: usize| #[trigger] stays(h, done, d, 1, 0) implies updated_copy(
        h,
        done,
        after.objects[d],
        d,
    ) by {
        assert(mid.objects.contains_key(d) && after.objects.contains_key(d));
        assert(mid.objects[d] == h.objects[d].clean());
    }
    assert forall|b: usize, d: usize| #[trigger] sent(done, b, d) implies updated_copy(
        h,
        done,
        after.objects[d],
        b,
    ) by {
        assert(received(done, d));
        assert(mid.objects.contains_key(d) && after.objects.contains_key(d));
        assert(mid.objects[d] == h.objects[b].clean());
    }
    assert forall|r: usize|
        #![trigger after.roots.contains(r)]
        after.roots.contains(r) <==> (h.roots.contains(r) && stays(h, done, r, 1, 0))
            || root_received(h, done, r) by {
        assert(mid.roots.contains(r) <==> (h.roots.contains(r) && (waits(h, r, 1, 0) || stays(
            h,
            done,
            r,
            1,
            0,
        ))) || root_received(h, done, r));
    }
}

/// `tail` is the log of a two-finger compaction of the heap `h`: the
/// compaction and its first pass are announced; then come the events of
/// the fingers, and then the references that change, in the order of
/// the addresses of the objects as they lie after the moves.
pub open spec fn finger_logged(h: HeapView, tail: Seq<GCEventView>) -> bool {
    exists|keys: Seq<usize>, mid: HeapView|
        {
            &&& #[trigger] lists(keys, h.objects.dom())
            &&& #[trigger] fingering(h, mid, moves(h, keys), 1, 0)
            &&& tail == seq![phase("Run 2 finger compaction"@), phase("relocate"@)]
                + finger_events(h, keys, 0, keys.len() - 1) + retables_below(
                mid,
                field_table(h, moves(h, keys)),
                usize::MAX + 1,
            )
        }
}

/// Compacts the heap with two fingers: marked objects from the far end
/// move into the places of unmarked objects at the near end where they
/// fit, the references to them are updated, and every unmarked object
/// is freed.
pub fn compact(heap: &mut Heap, eventlog: &mut Vec<GCEvent>)
    requires
        old(heap)@.shaped(),
        forall|b: usize| #[trigger]
            old(heap)@.objects.contains_key(b) ==> old(heap)@.objects[b].fwd_addr is None,
    ensures
        compacted(old(heap)@, final(heap)@),
        old(eventlog)@.len() <= final(eventlog)@.len(),
        forall|i: int| 0 <= i < old(eventlog)@.len() ==> final(eventlog)@[i] == old(eventlog)@[i],
        exists|tail: Seq<GCEventView>|
            log_of(final(eventlog)@) == log_of(old(eventlog)@) + tail && #[trigger] finger_logged(
                old(heap)@,
                tail,
            ),
{
    let ghost h = heap@;
    let ghost log0 = log_of(eventlog@);
    let announce = GCEvent::phase("Run 2 finger compaction".to_owned());
    proof {
        lemma_log_push(eventlog@, announce);
    }
    eventlog.push(announce);
    let ghost log1 = eventlog@;
    let forwarding_ptrs = relocate(heap, eventlog);
    let ghost mid = heap@;
    let ghost log2 = eventlog@;
    update_references(heap, &forwarding_ptrs, eventlog);
    proof {
        let keys = choose|keys: Seq<usize>|
            {
                &&& #[trigger] lists(keys, h.objects.dom())
                &&& fingering(h, mid, moves(h, keys), 1, 0)
                &&& matched(h, moves(h, keys))
                &&& forwarding_ptrs@ == field_table(h, moves(h, keys))
                &&& log_of(log2) == log_of(log1).push(phase("relocate"@)) + finger_events(
                    h,
                    keys,
                    0,
                    keys.len() - 1,
                )
            };
        lemma_rearranged(h, mid, heap@, moves(h, keys));
        assert(lists(keys, h.objects.dom()) && rearranged(h, moves(h, keys), heap@));
        let fingers = finger_events(h, keys, 0, keys.len() - 1);
        let updates = retables_below(mid, field_table(h, moves(h, keys)), usize::MAX + 1);
        let tail = seq![phase("Run 2 finger compaction"@), phase("relocate"@)] + fingers + updates;
        assert(log_of(eventlog@) =~= log0 + tail);
        assert(lists(keys, h.objects.dom()) && fingering(h, mid, moves(h, keys), 1, 0));
        assert(finger_logged(h, tail));
    }
}

} // verus!
