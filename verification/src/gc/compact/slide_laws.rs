use crate::gc::compact::lisp_2::compacted;
use crate::gc::compact::lisp_2::lemma_packed_gap;
use crate::gc::compact::lisp_2::lemma_packed_grows;
use crate::gc::compact::lisp_2::lemma_padded;
use crate::gc::compact::lisp_2::lemma_padded_fits;
use crate::gc::compact::lisp_2::packed_below;
use crate::gc::compact::lisp_2::padded;
use crate::gc::compact::lisp_2::root_settled;
use crate::gc::compact::lisp_2::settled;
use crate::gc::compact::lisp_2::settles;
use crate::gc::compact::lisp_2::slid;
use crate::gc::mark_compact::lemma_traced;
use crate::gc::mark_compact::lives;
use crate::gc::mark_compact::traced_heap;
use crate::gc::mark_sweep::lemma_chain_reachable;
use crate::gc::object_marker::is_chain;
use crate::gc::object_marker::reachable;
use crate::gc::object_marker::refers;
use crate::heap::lemma_cover_holds;
use crate::heap::lemma_layout_unique;
use crate::heap::HeapView;
use crate::mutator::base_of;
use crate::mutator::follow;
use crate::mutator::lemma_base_of;
use crate::mutator::lemma_held;
use crate::object::Address;
use crate::object::Field;
use vstd::prelude::*;

verus! {

/// Where the marked object at `b` goes when the marked objects are packed.
pub open spec fn place(m: HeapView, b: usize) -> usize {
    packed_below(m, b as int) as usize
}

/// Where the address `addr` goes: with the object that holds it.
pub open spec fn moved(m: HeapView, addr: usize) -> usize {
    match base_of(m, addr) {
        Some(b) => (place(m, b) + (addr - b)) as usize,
        None => addr,
    }
}

/// The marked objects before an object, packed, end before that object.
pub proof fn lemma_packed_bound(m: HeapView, limit: int, b: usize)
    requires
        m.shaped(),
        m.objects.contains_key(b),
        0 <= limit <= b,
    ensures
        0 <= packed_below(m, limit) <= b,
    decreases limit,
{
    if limit > 0 {
        let at = (limit - 1) as usize;
        lemma_packed_bound(m, limit - 1, b);
        if m.objects.contains_key(at) && m.objects[at].marked {
            lemma_packed_bound(m, limit - 1, at);
            lemma_padded_fits(m, at, b);
        }
    }
}

/// Of two marked objects the later one goes behind the earlier one.
pub proof fn lemma_places_in_order(m: HeapView, a: usize, b: usize)
    requires
        m.shaped(),
        m.objects.contains_key(a),
        m.objects.contains_key(b),
        m.objects[a].marked,
        a < b,
    ensures
        place(m, a) + padded(m, a) <= place(m, b),
        place(m, a) + m.objects[a].fields.len() <= place(m, b),
        place(m, a) == packed_below(m, a as int),
        place(m, b) == packed_below(m, b as int),
{
    lemma_packed_bound(m, a as int, a);
    lemma_packed_bound(m, b as int, b);
    lemma_packed_grows(m, a + 1, b as int);
    lemma_padded(m, a);
}

/// `all` is `h` with every object marked.
pub open spec fn all_marked(h: HeapView, all: HeapView) -> bool {
    &&& all.objects.dom() == h.objects.dom()
    &&& forall|d: usize| #[trigger]
        all.objects.contains_key(d) ==> all.objects[d].marked && all.objects[d].fields
            == h.objects[d].fields
    &&& all.alignment == h.alignment
}

/// A compacted heap is packed: packing it again leaves every object in its place.
pub proof fn lemma_packed_fixed(m: HeapView, h1: HeapView, all: HeapView, limit: int, b: usize)
    requires
        m.shaped(),
        compacted(m, h1),
        all_marked(h1, all),
        m.objects.contains_key(b),
        0 <= limit <= b,
    ensures
        packed_below(all, packed_below(m, limit)) == packed_below(m, limit),
    decreases limit,
{
    if limit > 0 {
        let at = (limit - 1) as usize;
        lemma_packed_fixed(m, h1, all, limit - 1, b);
        lemma_packed_bound(m, limit - 1, b);
        lemma_packed_bound(m, limit, b);
        let before = packed_below(m, limit - 1);
        let here = packed_below(m, limit);
        if m.objects.contains_key(at) && m.objects[at].marked {
            lemma_packed_bound(m, limit - 1, at);
            assert(settles(m, at, before as usize));
            assert(settled(m, before as usize));
            assert(h1.objects.contains_key(before as usize));
            assert(all.objects.contains_key(before as usize));
            assert forall|e: usize| #[trigger]
                all.objects.contains_key(e) && all.objects[e].marked implies !(before + 1 <= e
                < here) by {
                if before + 1 <= e < here {
                    assert(h1.objects.contains_key(e));
                    assert(settled(m, e));
                    let c = choose|c: usize| #[trigger] settles(m, c, e);
                    if c < at {
                        lemma_places_in_order(m, c, at);
                    } else if c > at {
                        lemma_packed_bound(m, c as int, c);
                        lemma_packed_grows(m, limit, c as int);
                    }
                }
            }
            lemma_packed_gap(all, before + 1, here);
            assert(padded(all, before as usize) == padded(m, at));
        }
    }
}

/// The objects of a compacted heap are the marked objects at their new places.
pub proof fn lemma_compacted_objects(m: HeapView, h1: HeapView, b: usize)
    requires
        m.shaped(),
        compacted(m, h1),
        m.objects.contains_key(b),
        m.objects[b].marked,
    ensures
        settles(m, b, place(m, b)),
        h1.objects.contains_key(place(m, b)),
        h1.objects[place(m, b)].fields.len() == m.objects[b].fields.len(),
        place(m, b) <= b,
{
    lemma_packed_bound(m, b as int, b);
    assert(settles(m, b, place(m, b)));
    assert(settled(m, place(m, b)));
}

/// An address of a marked object goes where its field goes.
pub proof fn lemma_moved_holds(m: HeapView, h1: HeapView, b: usize, addr: usize)
    requires
        m.shaped(),
        compacted(m, h1),
        m.holds(b, addr),
        m.objects[b].marked,
    ensures
        moved(m, addr) == place(m, b) + (addr - b),
        h1.holds(place(m, b), moved(m, addr)),
        base_of(h1, moved(m, addr)) == Some(place(m, b)),
        h1.objects[place(m, b)].fields[addr - b] == slid(m, m.objects[b].fields[addr - b]),
{
    lemma_base_of(m, b, addr);
    lemma_compacted_objects(m, h1, b);
    lemma_cover_holds(h1, place(m, b), (place(m, b) + (addr - b)) as usize);
    lemma_base_of(h1, place(m, b), moved(m, addr));
}

/// A reference to the base of a marked object refers to its new place afterwards.
pub proof fn lemma_slid_base(m: HeapView, b: usize)
    requires
        m.shaped(),
        m.objects.contains_key(b),
        m.objects[b].marked,
    ensures
        slid(m, Field::Ref { addr: Address::Ptr(b) }) == (Field::Ref {
            addr: Address::Ptr(place(m, b)),
        }),
{
    lemma_cover_holds(m, b, b);
    lemma_base_of(m, b, b);
    lemma_packed_bound(m, b as int, b);
}

/// What is reachable before a compaction is reachable at its new place afterwards.
pub proof fn lemma_slid_reachable(h: HeapView, h1: HeapView, b: usize)
    requires
        h.wf(),
        compacted(traced_heap(h), h1),
        h.objects.contains_key(b),
        reachable(h, b),
    ensures
        reachable(h1, place(traced_heap(h), b)),
{
    let m = traced_heap(h);
    lemma_traced(h);
    let p = choose|p: Seq<usize>|
        #[trigger] is_chain(h, p) && h.roots.contains(p[0]) && p.last() == b;
    let q = Seq::new(p.len(), |i: int| place(m, p[i]));
    assert forall|i: int| 0 <= i < p.len() implies m.objects.contains_key(#[trigger] p[i])
        && m.objects[p[i]].marked && h1.objects.contains_key(q[i]) by {
        lemma_chain_reachable(h, p, i);
        assert(m.objects.contains_key(p[i]));
        lemma_compacted_objects(m, h1, p[i]);
    }
    assert forall|i: int| 0 <= i < q.len() - 1 implies refers(h1, #[trigger] q[i], q[i + 1]) by {
        assert(m.objects.contains_key(p[i]) && m.objects[p[i]].marked);
        assert(m.objects.contains_key(p[i + 1]) && m.objects[p[i + 1]].marked);
        assert(refers(h, p[i], p[i + 1]));
        lemma_slid_refers(h, m, h1, p[i], p[i + 1]);
    }
    assert(m.objects.contains_key(p[0]));
    assert(h1.objects.contains_key(q[0]));
    assert(is_chain(h1, q));
    lemma_compacted_objects(m, h1, p[0]);
    assert(settles(m, p[0], q[0]) && m.roots.contains(p[0]));
    assert(root_settled(m, q[0]));
    assert(h1.roots.contains(q[0]));
    assert(q.last() == place(m, b));
}

/// A reference between two marked objects is a reference between their new places.
proof fn lemma_slid_refers(h: HeapView, m: HeapView, h1: HeapView, a: usize, b: usize)
    requires
        m == traced_heap(h),
        m.shaped(),
        compacted(m, h1),
        refers(h, a, b),
        m.objects.contains_key(a),
        m.objects[a].marked,
        m.objects.contains_key(b),
        m.objects[b].marked,
    ensures
        refers(h1, place(m, a), place(m, b)),
{
    let j = choose|j: int|
        0 <= j < h.objects[a].fields.len() && #[trigger] h.objects[a].fields[j] == (Field::Ref {
            addr: Address::Ptr(b),
        });
    lemma_compacted_objects(m, h1, a);
    lemma_compacted_objects(m, h1, b);
    lemma_slid_base(m, b);
    assert(h1.objects[place(m, a)].fields[j] == slid(m, m.objects[a].fields[j]));
    assert(h1.objects[place(m, a)].fields[j] == (Field::Ref { addr: Address::Ptr(place(m, b)) }));
}

/// After a compaction every object is reachable.
proof fn lemma_slid_all_reachable(h: HeapView, h1: HeapView, d: usize)
    requires
        h.wf(),
        compacted(traced_heap(h), h1),
        h1.objects.contains_key(d),
    ensures
        reachable(h1, d),
{
    let m = traced_heap(h);
    lemma_traced(h);
    assert(settled(m, d));
    let b = choose|b: usize| #[trigger] settles(m, b, d);
    lemma_packed_bound(m, b as int, b);
    assert(h.objects.contains_key(b));
    lemma_slid_reachable(h, h1, b);
}

/// After a compaction every object lies where a compaction puts it.
proof fn lemma_slid_in_place(h: HeapView, h1: HeapView, d: usize)
    requires
        h.wf(),
        compacted(traced_heap(h), h1),
        all_marked(h1, traced_heap(h1)),
        h1.objects.contains_key(d),
    ensures
        packed_below(traced_heap(h1), d as int) == d,
{
    let m = traced_heap(h);
    lemma_traced(h);
    assert(settled(m, d));
    let b = choose|b: usize| #[trigger] settles(m, b, d);
    lemma_packed_fixed(m, h1, traced_heap(h1), b as int, b);
}

/// In a heap whose objects are all marked and lie where a compaction
/// puts them, a compaction changes no field.
proof fn lemma_slid_same(m1: HeapView, f: Field)
    requires
        forall|d: usize| #[trigger]
            m1.objects.contains_key(d) ==> m1.objects[d].marked && packed_below(m1, d as int) == d,
    ensures
        slid(m1, f) == f,
{
    if let Field::Ref { addr: Address::Ptr(a) } = f {
        if base_of(m1, a) is Some {
            let d = choose|d: usize| m1.holds(d, a);
            assert(m1.holds(d, a));
            lemma_base_of(m1, d, a);
            assert(m1.objects.contains_key(d));
        }
    }
}

/// In a heap whose objects are all marked and lie where a compaction
/// puts them, every object goes where it is.
proof fn lemma_settles_same(h1: HeapView, m1: HeapView)
    requires
        m1 == traced_heap(h1),
        h1.shaped(),
        forall|d: usize| #[trigger]
            m1.objects.contains_key(d) ==> m1.objects[d].marked && packed_below(m1, d as int) == d,
    ensures
        forall|e: usize| settled(m1, e) <==> h1.objects.contains_key(e),
        forall|e: usize| root_settled(m1, e) <==> h1.roots.contains(e),
        forall|e: usize| #[trigger] h1.objects.contains_key(e) ==> settles(m1, e, e),
{
    lemma_traced(h1);
    assert forall|e: usize| settled(m1, e) <==> h1.objects.contains_key(e) by {
        if settled(m1, e) {
            let d = choose|d: usize| #[trigger] settles(m1, d, e);
            assert(m1.objects.contains_key(d));
        }
        if h1.objects.contains_key(e) {
            assert(m1.objects.contains_key(e));
            assert(settles(m1, e, e));
        }
    }
    assert forall|e: usize| root_settled(m1, e) <==> h1.roots.contains(e) by {
        if root_settled(m1, e) {
            let d = choose|d: usize| #[trigger] settles(m1, d, e) && m1.roots.contains(d);
            assert(m1.objects.contains_key(d));
        }
        if h1.roots.contains(e) {
            assert(h1.objects.dom().contains(e));
            assert(m1.objects.contains_key(e));
            assert(settles(m1, e, e) && m1.roots.contains(e));
        }
    }
    assert forall|e: usize| #[trigger] h1.objects.contains_key(e) implies settles(m1, e, e) by {
        assert(m1.objects.contains_key(e));
    }
}

/// A second compaction by sliding changes nothing: after a compaction
/// every object is reachable and the objects lie packed, so the next
/// one frees nothing and moves nothing, and no reference changes.
pub proof fn lemma_slide_twice(h: HeapView, h1: HeapView, h2: HeapView)
    requires
        h.wf(),
        compacted(traced_heap(h), h1),
        compacted(traced_heap(h1), h2),
    ensures
        h2 == h1,
{
    let m1 = traced_heap(h1);
    lemma_traced(h1);
    assert forall|d: usize| #[trigger] m1.objects.contains_key(d) implies m1.objects[d].marked by {
        assert(h1.objects.contains_key(d));
        lemma_slid_all_reachable(h, h1, d);
    }
    assert(all_marked(h1, m1));
    assert forall|d: usize| #[trigger] m1.objects.contains_key(d) implies m1.objects[d].marked
        && packed_below(m1, d as int) == d by {
        assert(h1.objects.contains_key(d));
        lemma_slid_in_place(h, h1, d);
    }
    lemma_settles_same(h1, m1);
    lemma_slide_same_heap(h1, m1, h2);
}

/// A compaction of a heap whose objects are all marked and lie where
/// they go leaves the heap as it is.
proof fn lemma_slide_same_heap(h1: HeapView, m1: HeapView, h2: HeapView)
    requires
        m1 == traced_heap(h1),
        h1.wf(),
        compacted(m1, h2),
        forall|d: usize| #[trigger]
            m1.objects.contains_key(d) ==> m1.objects[d].marked && packed_below(m1, d as int) == d,
        forall|e: usize| settled(m1, e) <==> h1.objects.contains_key(e),
        forall|e: usize| root_settled(m1, e) <==> h1.roots.contains(e),
        forall|e: usize| #[trigger] h1.objects.contains_key(e) ==> settles(m1, e, e),
    ensures
        h2 == h1,
{
    assert forall|e: usize| h2.objects.contains_key(e) <==> h1.objects.contains_key(e) by {
        assert(h2.objects.contains_key(e) <==> settled(m1, e));
    }
    assert forall|e: usize| h2.roots.contains(e) <==> h1.roots.contains(e) by {
        assert(h2.roots.contains(e) <==> root_settled(m1, e));
    }
    assert forall|e: usize| #[trigger] h2.objects.contains_key(e) implies h2.objects[e]
        == h1.objects[e] by {
        assert(h1.objects.contains_key(e));
        assert(settles(m1, e, e));
        assert forall|j: int| 0 <= j < h1.objects[e].fields.len()
            implies #[trigger] h2.objects[e].fields[j]
            == h1.objects[e].fields[j] by {
            lemma_slid_same(m1, m1.objects[e].fields[j]);
        }
        assert(h2.objects[e].fields =~= h1.objects[e].fields);
    }
    assert(h2.objects =~= h1.objects);
    assert(h2.roots =~= h1.roots);
    lemma_layout_unique(h1, h2);
}

/// The field at an address of a reachable object is afterwards, updated,
/// the field at the place where the address has gone.
proof fn lemma_slide_field(h: HeapView, h1: HeapView, addr: usize)
    requires
        h.wf(),
        compacted(traced_heap(h), h1),
        base_of(h, addr) is Some,
        reachable(h, base_of(h, addr)->0),
    ensures
        crate::mutator::field_at(h, addr) is Some,
        crate::mutator::field_at(h1, moved(traced_heap(h), addr)) == Some(
            slid(traced_heap(h), crate::mutator::field_at(h, addr)->0),
        ),
{
    let m = traced_heap(h);
    lemma_traced(h);
    let b = base_of(h, addr)->0;
    lemma_held(h, addr);
    assert(m.holds(b, addr));
    assert(m.objects.contains_key(b));
    lemma_moved_holds(m, h1, b, addr);
}

/// A compaction by sliding keeps what reads give: a read that stays
/// within reachable objects, and gives a value, gives the same value
/// afterwards at the place where its address has gone.
pub proof fn lemma_slide_keeps_reads(h: HeapView, h1: HeapView, addr: usize, hops: nat)
    requires
        h.wf(),
        compacted(traced_heap(h), h1),
        lives(h, addr, hops),
        follow(h, addr, hops) is Ok,
    ensures
        follow(h1, moved(traced_heap(h), addr), hops) == follow(h, addr, hops),
    decreases hops,
{
    lemma_slide_field(h, h1, addr);
    match crate::mutator::field_at(h, addr)->0 {
        Field::Ref { addr: Address::Ptr(next) } => {
            if hops > 0 {
                lemma_slide_keeps_reads(h, h1, next, (hops - 1) as nat);
                assert(lives(h, next, (hops - 1) as nat));
                assert(base_of(h, next) is Some && reachable(h, base_of(h, next)->0));
                lemma_slid_target(h, traced_heap(h), next);
            }
        },
        _ => {},
    }
}

/// A reference into a reachable object refers afterwards to where its target has gone.
proof fn lemma_slid_target(h: HeapView, m: HeapView, next: usize)
    requires
        m == traced_heap(h),
        h.shaped(),
        base_of(h, next) is Some,
        reachable(h, base_of(h, next)->0),
    ensures
        slid(m, Field::Ref { addr: Address::Ptr(next) }) == (Field::Ref {
            addr: Address::Ptr(moved(m, next)),
        }),
{
    lemma_traced(h);
    lemma_held(h, next);
    let c = base_of(h, next)->0;
    assert(m.holds(c, next));
    assert(m.objects.contains_key(c));
    lemma_packed_bound(m, c as int, c);
}

} // verus!
