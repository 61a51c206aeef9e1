use crate::mutator::lemma_held;
use crate::gc::compact::two_finger::carries;
use crate::gc::compact::two_finger::compacted;
use crate::gc::compact::two_finger::field_table;
use crate::gc::compact::two_finger::matched;
use crate::gc::compact::two_finger::moves;
use crate::gc::compact::two_finger::moves_from;
use crate::gc::compact::two_finger::rearranged;
use crate::gc::compact::two_finger::received;
use crate::gc::compact::two_finger::retabled;
use crate::gc::compact::two_finger::root_received;
use crate::gc::compact::two_finger::sent;
use crate::gc::compact::two_finger::stays;
use crate::gc::compact::two_finger::updated_copy;
use crate::gc::mark_compact::lemma_traced;
use crate::gc::mark_compact::lives;
use crate::gc::mark_compact::traced_heap;
use crate::gc::mark_sweep::lemma_chain_reachable;
use crate::gc::object_marker::is_chain;
use crate::gc::object_marker::reachable;
use crate::gc::object_marker::refers;
use crate::heap::lemma_cover_holds;
use crate::heap::lemma_layout_unique;
use crate::heap::HeapView;
use crate::mutator::base_of;
use crate::mutator::field_at;
use crate::mutator::follow;
use crate::mutator::lemma_base_of;
use crate::object::Address;
use crate::object::Field;
use crate::ordered::lists;
use vstd::prelude::*;

verus! {

/// Where the marked object at `b` lies after the moves: where it was
/// moved to, or where it was.
pub open spec fn place(done: Map<usize, usize>, b: usize) -> usize {
    if done.contains_key(b) {
        done[b]
    } else {
        b
    }
}

/// Where the address `addr` goes: with the object that holds it.
pub open spec fn moved(m: HeapView, done: Map<usize, usize>, addr: usize) -> usize {
    match base_of(m, addr) {
        Some(b) => (place(done, b) + (addr - b)) as usize,
        None => addr,
    }
}

/// The forwarding table holds an address of an object where the object was moved.
pub proof fn lemma_table_at(m: HeapView, done: Map<usize, usize>, b: usize, addr: usize)
    requires
        m.shaped(),
        matched(m, done),
        m.holds(b, addr),
    ensures
        field_table(m, done).contains_key(addr) <==> done.contains_key(b),
        done.contains_key(b) ==> field_table(m, done)[addr] == done[b] + (addr - b),
        retabled(field_table(m, done), Field::Ref { addr: Address::Ptr(addr) }) == (Field::Ref {
            addr: Address::Ptr(moved(m, done, addr)),
        }),
{
    lemma_base_of(m, b, addr);
    let table = field_table(m, done);
    if done.contains_key(b) {
        assert(carries(m, done, b, addr));
    }
    if table.contains_key(addr) {
        let c = choose|c: usize| #[trigger] carries(m, done, c, addr);
        assert(done.contains_key(c));
        assert(m.objects.contains_key(c));
        lemma_cover_holds(m, c, addr);
        lemma_base_of(m, c, addr);
        assert(c == b);
    }
}

/// The objects of a rearranged heap are the marked objects at their places.
pub proof fn lemma_rearranged_objects(m: HeapView, done: Map<usize, usize>, h1: HeapView, b: usize)
    requires
        m.shaped(),
        rearranged(m, done, h1),
        m.objects.contains_key(b),
        m.objects[b].marked,
    ensures
        h1.objects.contains_key(place(done, b)),
        updated_copy(m, done, h1.objects[place(done, b)], b),
        place(done, b) + m.objects[b].fields.len() <= usize::MAX,
{
    if done.contains_key(b) {
        assert(sent(done, b, done[b]));
        assert(received(done, done[b]));
        assert(m.objects.contains_key(done[b]));
    } else {
        assert(stays(m, done, b, 1, 0));
    }
}

/// An address of a marked object goes where its field goes.
pub proof fn lemma_moved_holds(m: HeapView, done: Map<usize, usize>, h1: HeapView, b: usize, addr: usize)
    requires
        m.shaped(),
        rearranged(m, done, h1),
        m.holds(b, addr),
        m.objects[b].marked,
    ensures
        moved(m, done, addr) == place(done, b) + (addr - b),
        h1.holds(place(done, b), moved(m, done, addr)),
        base_of(h1, moved(m, done, addr)) == Some(place(done, b)),
        h1.objects[place(done, b)].fields[addr - b] == retabled(
            field_table(m, done),
            m.objects[b].fields[addr - b],
        ),
{
    lemma_base_of(m, b, addr);
    lemma_rearranged_objects(m, done, h1, b);
    lemma_cover_holds(h1, place(done, b), (place(done, b) + (addr - b)) as usize);
    lemma_base_of(h1, place(done, b), moved(m, done, addr));
}

/// A reference between two marked objects is a reference between their places.
proof fn lemma_moved_refers(h: HeapView, m: HeapView, done: Map<usize, usize>, h1: HeapView, a: usize, b: usize)
    requires
        m == traced_heap(h),
        m.shaped(),
        rearranged(m, done, h1),
        refers(h, a, b),
        m.objects.contains_key(a),
        m.objects[a].marked,
        m.objects.contains_key(b),
        m.objects[b].marked,
    ensures
        refers(h1, place(done, a), place(done, b)),
{
    let j = choose|j: int|
        0 <= j < h.objects[a].fields.len() && #[trigger] h.objects[a].fields[j] == (Field::Ref {
            addr: Address::Ptr(b),
        });
    lemma_rearranged_objects(m, done, h1, a);
    lemma_rearranged_objects(m, done, h1, b);
    lemma_cover_holds(m, b, b);
    lemma_table_at(m, done, b, b);
    lemma_base_of(m, b, b);
    assert(h1.objects[place(done, a)].fields[j] == retabled(
        field_table(m, done),
        m.objects[a].fields[j],
    ));
    assert(h1.objects[place(done, a)].fields[j] == (Field::Ref {
        addr: Address::Ptr(place(done, b)),
    }));
}

/// What is reachable before a rearrangement is reachable at its place afterwards.
pub proof fn lemma_moved_reachable(h: HeapView, done: Map<usize, usize>, h1: HeapView, b: usize)
    requires
        h.wf(),
        rearranged(traced_heap(h), done, h1),
        h.objects.contains_key(b),
        reachable(h, b),
    ensures
        reachable(h1, place(done, b)),
{
    let m = traced_heap(h);
    lemma_traced(h);
    let p = choose|p: Seq<usize>|
        #[trigger] is_chain(h, p) && h.roots.contains(p[0]) && p.last() == b;
    let q = Seq::new(p.len(), |i: int| place(done, p[i]));
    assert forall|i: int| 0 <= i < p.len() implies m.objects.contains_key(#[trigger] p[i])
        && m.objects[p[i]].marked && h1.objects.contains_key(q[i]) by {
        lemma_chain_reachable(h, p, i);
        assert(m.objects.contains_key(p[i]));
        lemma_rearranged_objects(m, done, h1, p[i]);
    }
    assert forall|i: int| 0 <= i < q.len() - 1 implies refers(h1, #[trigger] q[i], q[i + 1]) by {
        assert(m.objects.contains_key(p[i]) && m.objects[p[i]].marked);
        assert(m.objects.contains_key(p[i + 1]) && m.objects[p[i + 1]].marked);
        assert(refers(h, p[i], p[i + 1]));
        lemma_moved_refers(h, m, done, h1, p[i], p[i + 1]);
    }
    assert(m.objects.contains_key(p[0]) && m.objects[p[0]].marked);
    assert(h1.objects.contains_key(q[0]));
    assert(is_chain(h1, q));
    if done.contains_key(p[0]) {
        assert(sent(done, p[0], q[0]) && m.roots.contains(p[0]));
        assert(root_received(m, done, q[0]));
    } else {
        assert(m.roots.contains(p[0]) && stays(m, done, p[0], 1, 0));
    }
    assert(h1.roots.contains(q[0]));
    assert(q.last() == place(done, b));
}

/// After a rearrangement every object is reachable.
proof fn lemma_moved_all_reachable(h: HeapView, done: Map<usize, usize>, h1: HeapView, d: usize)
    requires
        h.wf(),
        rearranged(traced_heap(h), done, h1),
        h1.objects.contains_key(d),
    ensures
        reachable(h1, d),
{
    let m = traced_heap(h);
    lemma_traced(h);
    if stays(m, done, d, 1, 0) {
        assert(h.objects.contains_key(d));
        lemma_moved_reachable(h, done, h1, d);
    } else {
        assert(received(done, d));
        let b = choose|b: usize| #[trigger] sent(done, b, d);
        assert(done.contains_key(b));
        assert(m.objects.contains_key(b));
        assert(h.objects.contains_key(b));
        lemma_moved_reachable(h, done, h1, b);
    }
}

/// Where every object is marked, the two fingers move nothing.
pub proof fn lemma_no_moves(m: HeapView, keys: Seq<usize>, lo: int, hi: int, acc: Map<usize, usize>)
    requires
        0 <= lo,
        hi < keys.len(),
        forall|j: int| 0 <= j < keys.len() ==> m.objects[#[trigger] keys[j]].marked,
    ensures
        moves_from(m, keys, lo, hi, acc) == acc,
    decreases hi - lo + 1,
{
    if lo < hi {
        lemma_no_moves(m, keys, lo + 1, hi, acc);
    }
}

/// A rearrangement without moves of a heap whose objects are all marked
/// leaves the heap as it is.
proof fn lemma_same_heap(h1: HeapView, m1: HeapView, h2: HeapView)
    requires
        m1 == traced_heap(h1),
        h1.wf(),
        forall|d: usize| #[trigger] m1.objects.contains_key(d) ==> m1.objects[d].marked,
        rearranged(m1, Map::<usize, usize>::empty(), h2),
    ensures
        h2 == h1,
{
    let done = Map::<usize, usize>::empty();
    lemma_traced(h1);
    assert forall|d: usize| !received(done, d) by {
        if received(done, d) {
            let b = choose|b: usize| #[trigger] sent(done, b, d);
        }
    }
    assert forall|d: usize| !root_received(m1, done, d) by {
        if root_received(m1, done, d) {
            let b = choose|b: usize| #[trigger] sent(done, b, d) && m1.roots.contains(b);
        }
    }
    assert forall|d: usize| stays(m1, done, d, 1, 0) <==> h1.objects.contains_key(d) by {
        if h1.objects.contains_key(d) {
            assert(m1.objects.contains_key(d));
        }
    }
    assert forall|a: usize| !field_table(m1, done).contains_key(a) by {
        if field_table(m1, done).contains_key(a) {
            let b = choose|b: usize| #[trigger] carries(m1, done, b, a);
        }
    }
    assert forall|e: usize| h2.objects.contains_key(e) <==> h1.objects.contains_key(e) by {
        assert(h2.objects.contains_key(e) <==> stays(m1, done, e, 1, 0) || received(done, e));
    }
    assert forall|e: usize| h2.roots.contains(e) <==> h1.roots.contains(e) by {
        assert(h2.roots.contains(e) <==> (m1.roots.contains(e) && stays(m1, done, e, 1, 0))
            || root_received(m1, done, e));
        if h1.roots.contains(e) {
            assert(h1.objects.dom().contains(e));
        }
    }
    assert forall|e: usize| #[trigger] h2.objects.contains_key(e) implies h2.objects[e]
        == h1.objects[e] by {
        assert(h1.objects.contains_key(e));
        assert(stays(m1, done, e, 1, 0));
        assert(updated_copy(m1, done, h2.objects[e], e));
        assert forall|j: int| 0 <= j < h1.objects[e].fields.len()
            implies #[trigger] h2.objects[e].fields[j]
            == h1.objects[e].fields[j] by {}
        assert(h2.objects[e].fields =~= h1.objects[e].fields);
    }
    assert(h2.objects =~= h1.objects);
    assert(h2.roots =~= h1.roots);
    lemma_layout_unique(h1, h2);
}

/// A second compaction with two fingers changes nothing: after a
/// compaction every object is reachable, so the next one finds no gap
/// to fill and nothing to free.
pub proof fn lemma_fingers_twice(h: HeapView, h1: HeapView, h2: HeapView)
    requires
        h.wf(),
        compacted(traced_heap(h), h1),
        compacted(traced_heap(h1), h2),
    ensures
        h2 == h1,
{
    let m = traced_heap(h);
    let m1 = traced_heap(h1);
    let keys = choose|keys: Seq<usize>| #[trigger]
        lists(keys, m.objects.dom()) && rearranged(m, moves(m, keys), h1);
    let keys1 = choose|keys: Seq<usize>| #[trigger]
        lists(keys, m1.objects.dom()) && rearranged(m1, moves(m1, keys), h2);
    lemma_traced(h1);
    assert forall|d: usize| #[trigger] m1.objects.contains_key(d) implies m1.objects[d].marked by {
        assert(h1.objects.contains_key(d));
        lemma_moved_all_reachable(h, moves(m, keys), h1, d);
    }
    assert forall|j: int| 0 <= j < keys1.len() implies m1.objects[#[trigger] keys1[j]].marked by {
        assert(keys1.contains(keys1[j]));
        assert(m1.objects.dom().contains(keys1[j]));
    }
    if keys1.len() > 0 {
        lemma_no_moves(m1, keys1, 0, keys1.len() - 1, Map::<usize, usize>::empty());
    }
    assert(moves(m1, keys1) == Map::<usize, usize>::empty());
    lemma_same_heap(h1, m1, h2);
}

/// The field at an address of a reachable object is afterwards, updated,
/// the field at the place where the address has gone.
proof fn lemma_moved_field(h: HeapView, done: Map<usize, usize>, h1: HeapView, addr: usize)
    requires
        h.wf(),
        rearranged(traced_heap(h), done, h1),
        base_of(h, addr) is Some,
        reachable(h, base_of(h, addr)->0),
    ensures
        field_at(h, addr) is Some,
        field_at(h1, moved(traced_heap(h), done, addr)) == Some(
            retabled(field_table(traced_heap(h), done), field_at(h, addr)->0),
        ),
{
    let m = traced_heap(h);
    lemma_traced(h);
    let b = base_of(h, addr)->0;
    lemma_held(h, addr);
    assert(m.holds(b, addr));
    assert(m.objects.contains_key(b));
    lemma_moved_holds(m, done, h1, b, addr);
}

/// A reference into an object refers afterwards to where its target has gone.
proof fn lemma_moved_target(h: HeapView, done: Map<usize, usize>, next: usize)
    requires
        h.shaped(),
        matched(traced_heap(h), done),
        base_of(h, next) is Some,
    ensures
        retabled(field_table(traced_heap(h), done), Field::Ref { addr: Address::Ptr(next) }) == (
        Field::Ref { addr: Address::Ptr(moved(traced_heap(h), done, next)) }),
{
    let m = traced_heap(h);
    lemma_traced(h);
    lemma_held(h, next);
    let c = base_of(h, next)->0;
    assert(m.holds(c, next));
    lemma_table_at(m, done, c, next);
}

/// A rearrangement keeps what reads give: a read that stays within
/// reachable objects, and gives a value, gives the same value afterwards
/// at the place where its address has gone.
pub proof fn lemma_moves_keep_reads(
    h: HeapView,
    done: Map<usize, usize>,
    h1: HeapView,
    addr: usize,
    hops: nat,
)
    requires
        h.wf(),
        rearranged(traced_heap(h), done, h1),
        lives(h, addr, hops),
        follow(h, addr, hops) is Ok,
    ensures
        follow(h1, moved(traced_heap(h), done, addr), hops) == follow(h, addr, hops),
    decreases hops,
{
    lemma_moved_field(h, done, h1, addr);
    match field_at(h, addr)->0 {
        Field::Ref { addr: Address::Ptr(next) } => {
            if hops > 0 {
                lemma_moves_keep_reads(h, done, h1, next, (hops - 1) as nat);
                assert(lives(h, next, (hops - 1) as nat));
                assert(base_of(h, next) is Some);
                lemma_moved_target(h, done, next);
            }
        },
        _ => {},
    }
}

/// A compaction with two fingers keeps what reads give: for a read that
/// stays within reachable objects, and gives a value, there is an
/// address at which a read gives the same value afterwards.
pub proof fn lemma_fingers_keep_reads(h: HeapView, h1: HeapView, addr: usize, hops: nat)
    requires
        h.wf(),
        compacted(traced_heap(h), h1),
        lives(h, addr, hops),
        follow(h, addr, hops) is Ok,
    ensures
        exists|at: usize| #[trigger] follow(h1, at, hops) == follow(h, addr, hops),
{
    let m = traced_heap(h);
    let keys = choose|keys: Seq<usize>| #[trigger]
        lists(keys, m.objects.dom()) && rearranged(m, moves(m, keys), h1);
    lemma_moves_keep_reads(h, moves(m, keys), h1, addr, hops);
    let at = moved(m, moves(m, keys), addr);
    assert(follow(h1, at, hops) == follow(h, addr, hops));
}

} // verus!
