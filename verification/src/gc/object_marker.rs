use crate::gc::GCEvent;
use crate::heap::aligned;
use crate::heap::lemma_views_insert;
use crate::heap::lemma_views_remove;
use crate::heap::Heap;
use crate::heap::HeapView;
use crate::object::Address;
use crate::object::Field;
use crate::object::ObjAddr;
use crate::object::ObjectView;
use crate::ordered::ascending_of;
use crate::ordered::lemma_ascending_of;
use crate::ordered::lists;
use crate::ordered::sorted_keys;
use crate::ordered::sorted_members;
use vstd::prelude::*;

verus! {

/// The object at `a` has a reference field whose target is the object base `b`.
pub open spec fn refers(h: HeapView, a: usize, b: usize) -> bool {
    &&& h.objects.contains_key(a)
    &&& h.objects.contains_key(b)
    &&& exists|i: int|
        0 <= i < h.objects[a].fields.len() && #[trigger] h.objects[a].fields[i] == (Field::Ref {
            addr: Address::Ptr(b),
        })
}

/// `p` is a chain of objects, each with a reference to the base of the next.
pub open spec fn is_chain(h: HeapView, p: Seq<usize>) -> bool {
    &&& p.len() > 0
    &&& h.objects.contains_key(p[0])
    &&& forall|i: int| 0 <= i < p.len() - 1 ==> refers(h, #[trigger] p[i], p[i + 1])
}

/// A chain of references leads from a root to the object at `a`.
pub open spec fn reachable(h: HeapView, a: usize) -> bool {
    exists|p: Seq<usize>| #[trigger] is_chain(h, p) && h.roots.contains(p[0]) && p.last() == a
}

/// A chain of objects that are all unmarked leads from `from` to `to`.
pub open spec fn white_path(h: HeapView, from: usize, to: usize) -> bool {
    exists|p: Seq<usize>|
        #[trigger] is_chain(h, p) && p[0] == from && p.last() == to && forall|i: int|
            0 <= i < p.len() ==> !h.objects[#[trigger] p[i]].marked
}

/// `h` is `h0` but for the marks.
pub open spec fn same_but_marks(h0: HeapView, h: HeapView) -> bool {
    &&& h.objects.dom() == h0.objects.dom()
    &&& forall|b: usize| #[trigger]
        h.objects.contains_key(b) ==> h.objects[b].fields == h0.objects[b].fields
            && h.objects[b].fwd_addr == h0.objects[b].fwd_addr
    &&& h.roots == h0.roots
    &&& h.free == h0.free
    &&& h.cells == h0.cells
    &&& h.alignment == h0.alignment
}

/// The mark event of the object at `b`.
pub open spec fn mark_event(h: HeapView, b: usize) -> GCEvent {
    GCEvent::MarkObject { addr: b, size: h.objects[b].fields.len() as usize }
}

/// `event` is the mark event of an object that is marked in `h` and was
/// not in `h0`.
pub open spec fn marks_fresh(event: GCEvent, h0: HeapView, h: HeapView) -> bool {
    exists|b: usize|
        #[trigger] h.objects.contains_key(b) && h.objects[b].marked && !h0.objects[b].marked
            && event == mark_event(h0, b)
}

/// `log` is `log0` followed by one mark event for each object that is
/// marked in `h` and was not in `h0`, and by nothing else.
pub open spec fn marks_logged(log0: Seq<GCEvent>, log: Seq<GCEvent>, h0: HeapView, h: HeapView) -> bool {
    &&& log0.len() <= log.len()
    &&& forall|i: int| 0 <= i < log0.len() ==> #[trigger] log[i] == log0[i]
    &&& forall|i: int| log0.len() <= i < log.len() ==> marks_fresh(#[trigger] log[i], h0, h)
    &&& forall|b: usize|
        #[trigger] h.objects.contains_key(b) && h.objects[b].marked && !h0.objects[b].marked
            ==> exists|i: int| log0.len() <= i < log.len() && #[trigger] log[i] == mark_event(h0, b)
    &&& forall|i: int, j: int|
        log0.len() <= i < j < log.len() ==> #[trigger] log[i] != #[trigger] log[j]
}

/// The targets of the references among `fields` that are not null, in
/// the order of the fields.
pub open spec fn targets(fields: Seq<Field>) -> Seq<usize>
    decreases fields.len(),
{
    if fields.len() == 0 {
        Seq::empty()
    } else {
        match fields.last().target() {
            Some(t) => targets(fields.drop_last()).push(t),
            None => targets(fields.drop_last()),
        }
    }
}

/// The objects of `h` that are not marked.
pub open spec fn white(h: HeapView) -> Set<usize> {
    Set::new(|b: usize| h.objects.contains_key(b) && !h.objects[b].marked)
}

/// The objects that a walk marks, in the order in which it marks them.
///
/// `white` holds the objects that are not marked yet, `stack` the
/// addresses that are still to visit, the next one last. An address that
/// is no unmarked object is passed over. An unmarked object is marked,
/// and the targets of its references are to visit next, the target of
/// its last reference first.
pub open spec fn visits(h: HeapView, white: Set<usize>, stack: Seq<usize>) -> Seq<usize>
    decreases white.len(), stack.len(),
    when white.finite()
    via visits_decreases
{
    if stack.len() == 0 {
        Seq::empty()
    } else if white.contains(stack.last()) {
        seq![stack.last()] + visits(
            h,
            white.remove(stack.last()),
            stack.drop_last() + targets(h.objects[stack.last()].fields),
        )
    } else {
        visits(h, white, stack.drop_last())
    }
}

#[via_fn]
proof fn visits_decreases(h: HeapView, white: Set<usize>, stack: Seq<usize>) {
    if stack.len() > 0 && white.contains(stack.last()) {
        vstd::set::axiom_set_remove_len(white, stack.last());
    }
}

/// The mark events of the objects of `order`, one after the other.
pub open spec fn mark_events(h: HeapView, order: Seq<usize>) -> Seq<GCEvent> {
    Seq::new(order.len(), |i: int| mark_event(h, order[i]))
}

/// The objects that walks from `roots` mark, one walk after the other,
/// in the order in which they are marked.
pub open spec fn rounds(h: HeapView, white: Set<usize>, roots: Seq<usize>) -> Seq<usize>
    decreases roots.len(),
{
    if roots.len() == 0 {
        Seq::empty()
    } else {
        let first = visits(h, white, seq![roots.first()]);
        first + rounds(h, white.difference(first.to_set()), roots.drop_first())
    }
}

/// The mark events of a marking from the roots: a walk from each root,
/// the roots in the order of their addresses, with no object marked at
/// the beginning.
pub open spec fn mark_trace(h: HeapView) -> Seq<GCEvent> {
    mark_events(h, rounds(h, h.objects.dom(), ascending_of(h.roots)))
}

/// A walk visits unmarked objects only.
pub proof fn lemma_visits_white(h: HeapView, white: Set<usize>, stack: Seq<usize>)
    requires
        white.finite(),
    ensures
        forall|i: int|
            0 <= i < visits(h, white, stack).len() ==> white.contains(
                #[trigger] visits(h, white, stack)[i],
            ),
    decreases white.len(), stack.len(),
{
    let order = visits(h, white, stack);
    if stack.len() == 0 {
        assert(order =~= Seq::<usize>::empty());
    } else {
        let current = stack.last();
        if white.contains(current) {
            vstd::set::axiom_set_remove_len(white, current);
            let next = stack.drop_last() + targets(h.objects[current].fields);
            lemma_visits_white(h, white.remove(current), next);
            let rest = visits(h, white.remove(current), next);
            assert(order == seq![current] + rest);
            assert forall|i: int| 0 <= i < order.len() implies white.contains(
                #[trigger] order[i],
            ) by {
                if i > 0 {
                    assert(order[i] == rest[i - 1]);
                    assert(white.remove(current).contains(rest[i - 1]));
                }
            }
        } else {
            lemma_visits_white(h, white, stack.drop_last());
            assert(order == visits(h, white, stack.drop_last()));
        }
    }
}

/// A walk looks at the fields of the unmarked objects, and at nothing else.
pub proof fn lemma_visits_fields(h1: HeapView, h2: HeapView, white: Set<usize>, stack: Seq<usize>)
    requires
        white.finite(),
        forall|b: usize| white.contains(b) ==> h1.objects[b].fields == h2.objects[b].fields,
    ensures
        visits(h1, white, stack) == visits(h2, white, stack),
    decreases white.len(), stack.len(),
{
    if stack.len() > 0 {
        let current = stack.last();
        if white.contains(current) {
            vstd::set::axiom_set_remove_len(white, current);
            let next = stack.drop_last() + targets(h1.objects[current].fields);
            lemma_visits_fields(h1, h2, white.remove(current), next);
        } else {
            lemma_visits_fields(h1, h2, white, stack.drop_last());
        }
    }
}

/// The marks do not matter to the layout, nor to which addresses an object holds.
pub proof fn lemma_marks_keep_layout(h0: HeapView, h: HeapView)
    requires
        same_but_marks(h0, h),
    ensures
        h0.shaped() ==> h.shaped(),
        h0.fits() ==> h.fits(),
        forall|x: int| h.in_object(x) <==> h0.in_object(x),
        forall|b: usize, a: usize| h.holds(b, a) <==> h0.holds(b, a),
{
    assert forall|x: int| h.in_object(x) <==> h0.in_object(x) by {
        if h.in_object(x) {
            let b = choose|b: usize| #[trigger]
                h.objects.contains_key(b) && b <= x < b + h.objects[b].fields.len();
            assert(h0.objects.contains_key(b) && b <= x < b + h0.objects[b].fields.len());
        }
        if h0.in_object(x) {
            let b = choose|b: usize| #[trigger]
                h0.objects.contains_key(b) && b <= x < b + h0.objects[b].fields.len();
            assert(h.objects.contains_key(b) && b <= x < b + h.objects[b].fields.len());
        }
    }
    assert forall|b: usize, a: usize| h.holds(b, a) <==> h0.holds(b, a) by {
        if h.holds(b, a) {
            assert(h0.objects.contains_key(b));
            assert forall|k: usize| #[trigger] h0.objects.contains_key(k) && k <= a implies k
                <= b by {
                assert(h.objects.contains_key(k));
            }
        }
        if h0.holds(b, a) {
            assert(h.objects.contains_key(b));
            assert forall|k: usize| #[trigger] h.objects.contains_key(k) && k <= a implies k
                <= b by {
                assert(h0.objects.contains_key(k));
            }
        }
    }
    if h0.shaped() {
        assert forall|a: usize, b: usize|
            #![trigger h.objects.contains_key(a), h.objects.contains_key(b)]
            h.objects.contains_key(a) && h.objects.contains_key(b) && a < b implies a
            + h.objects[a].fields.len() <= b by {
            assert(h0.objects.contains_key(a) && h0.objects.contains_key(b));
        }
        assert forall|b: usize| #[trigger] h.objects.contains_key(b)
            implies h.objects[b].fields.len()
            >= 1 && b + h.objects[b].fields.len() <= h.size() && aligned(b, h.alignment) by {
            assert(h0.objects.contains_key(b));
        }
        assert(h.shaped());
    }
    if h0.fits() {
        assert forall|b: usize| #[trigger] h.objects.contains_key(b) implies b
            + h.objects[b].fields.len() <= usize::MAX by {
            assert(h0.objects.contains_key(b));
        }
    }
}

/// The marks do not matter to the references.
pub proof fn lemma_marks_keep_refers(h0: HeapView, h: HeapView)
    requires
        same_but_marks(h0, h),
    ensures
        forall|a: usize, b: usize| refers(h, a, b) <==> refers(h0, a, b),
{
    assert forall|a: usize, b: usize| refers(h, a, b) <==> refers(h0, a, b) by {
        if refers(h, a, b) {
            assert(h0.objects.contains_key(a) && h0.objects.contains_key(b));
            let i = choose|i: int|
                0 <= i < h.objects[a].fields.len() && #[trigger] h.objects[a].fields[i] == (
                Field::Ref { addr: Address::Ptr(b) });
            assert(h0.objects[a].fields[i] == (Field::Ref { addr: Address::Ptr(b) }));
        }
        if refers(h0, a, b) {
            assert(h.objects.contains_key(a) && h.objects.contains_key(b));
            let i = choose|i: int|
                0 <= i < h0.objects[a].fields.len() && #[trigger] h0.objects[a].fields[i] == (
                Field::Ref { addr: Address::Ptr(b) });
            assert(h.objects[a].fields[i] == (Field::Ref { addr: Address::Ptr(b) }));
        }
    }
}

/// The marks do not matter to a chain.
pub proof fn lemma_marks_keep_chain(h0: HeapView, h: HeapView, p: Seq<usize>)
    requires
        same_but_marks(h0, h) || same_but_marks(h, h0),
        is_chain(h0, p),
    ensures
        is_chain(h, p),
{
    if same_but_marks(h0, h) {
        lemma_marks_keep_refers(h0, h);
    } else {
        lemma_marks_keep_refers(h, h0);
    }
    assert(h.objects.contains_key(p[0]));
    assert forall|i: int| 0 <= i < p.len() - 1 implies refers(h, #[trigger] p[i], p[i + 1]) by {
        assert(refers(h0, p[i], p[i + 1]));
    }
}

/// The marks do not matter to what is reachable.
pub proof fn lemma_marks_keep_reachable(h0: HeapView, h: HeapView, a: usize)
    requires
        same_but_marks(h0, h) || same_but_marks(h, h0),
    ensures
        reachable(h, a) <==> reachable(h0, a),
{
    if reachable(h, a) {
        let p = choose|p: Seq<usize>|
            #[trigger] is_chain(h, p) && h.roots.contains(p[0]) && p.last() == a;
        lemma_marks_keep_chain(h, h0, p);
    }
    if reachable(h0, a) {
        let p = choose|p: Seq<usize>|
            #[trigger] is_chain(h0, p) && h0.roots.contains(p[0]) && p.last() == a;
        lemma_marks_keep_chain(h0, h, p);
    }
}

/// A chain with one more object at its end.
pub proof fn lemma_chain_push(h: HeapView, p: Seq<usize>, b: usize)
    requires
        is_chain(h, p),
        refers(h, p.last(), b),
    ensures
        is_chain(h, p.push(b)),
        p.push(b)[0] == p[0],
        p.push(b).last() == b,
{
    let q = p.push(b);
    assert forall|i: int| 0 <= i < q.len() - 1 implies refers(h, #[trigger] q[i], q[i + 1]) by {
        if i < p.len() - 1 {
            assert(q[i] == p[i]);
            assert(refers(h, p[i], p[i + 1]));
        }
    }
}

/// Every object of a chain is an object.
pub proof fn lemma_chain_objects(h: HeapView, p: Seq<usize>, i: int)
    requires
        is_chain(h, p),
        0 <= i < p.len(),
    ensures
        h.objects.contains_key(p[i]),
{
    if i > 0 {
        assert(refers(h, p[i - 1], p[i - 1 + 1]));
    }
}

/// A start of a chain is a chain.
pub proof fn lemma_chain_take(h: HeapView, p: Seq<usize>, n: int)
    requires
        is_chain(h, p),
        0 < n <= p.len(),
    ensures
        is_chain(h, p.take(n)),
{
    let q = p.take(n);
    assert forall|i: int| 0 <= i < q.len() - 1 implies refers(h, #[trigger] q[i], q[i + 1]) by {
        assert(refers(h, p[i], p[i + 1]));
    }
}

/// Where the marked objects are closed under references, the whole of a
/// chain that starts at a marked object is marked.
pub proof fn lemma_closed_chain(h: HeapView, p: Seq<usize>, i: int)
    requires
        is_chain(h, p),
        0 <= i < p.len(),
        h.objects[p[0]].marked,
        forall|a: usize, b: usize| #[trigger] refers(h, a, b) && h.objects[a].marked
            ==> h.objects[b].marked,
    ensures
        h.objects[p[i]].marked,
    decreases i,
{
    if i > 0 {
        lemma_closed_chain(h, p, i - 1);
        assert(refers(h, p[i - 1], p[i - 1 + 1]));
    }
}

/// The target of `field`, if it has one, is among `stack`.
pub open spec fn targets_in(field: Field, stack: Seq<usize>) -> bool {
    match field.target() {
        Some(t) => stack.contains(t),
        None => true,
    }
}

/// The state of a marking walk from `start`: `h0` is the heap at its
/// beginning, `h` the heap now, `stack` the addresses still to visit.
pub open spec fn walking(h0: HeapView, h: HeapView, start: usize, stack: Seq<usize>) -> bool {
    &&& same_but_marks(h0, h)
    &&& forall|b: usize| #[trigger]
        h.objects.contains_key(b) && h0.objects[b].marked ==> h.objects[b].marked
    &&& forall|b: usize| #[trigger]
        h.objects.contains_key(b) && h.objects[b].marked && !h0.objects[b].marked ==> white_path(
            h0,
            start,
            b,
        )
    &&& forall|i: int|
        0 <= i < stack.len() && h0.objects.contains_key(#[trigger] stack[i])
            && !h0.objects[stack[i]].marked ==> white_path(h0, start, stack[i])
    &&& forall|a: usize, b: usize| #[trigger]
        refers(h0, a, b) && h.objects[a].marked && !h0.objects[a].marked ==> h.objects[b].marked
            || stack.contains(b)
    &&& h0.objects.contains_key(start) && !h0.objects[start].marked ==> h.objects[start].marked
        || stack.contains(start)
}

/// Once nothing is left to visit, every object that an unmarked chain
/// from the start led to is marked.
pub proof fn lemma_walk_complete(h0: HeapView, h: HeapView, start: usize, p: Seq<usize>, i: int)
    requires
        walking(h0, h, start, Seq::<usize>::empty()),
        is_chain(h0, p),
        p[0] == start,
        forall|j: int| 0 <= j < p.len() ==> !h0.objects[#[trigger] p[j]].marked,
        0 <= i < p.len(),
    ensures
        h.objects[p[i]].marked,
    decreases i,
{
    if i > 0 {
        lemma_walk_complete(h0, h, start, p, i - 1);
        assert(refers(h0, p[i - 1], p[i - 1 + 1]));
        assert(!h0.objects[p[i - 1]].marked);
    }
}

/// Whether the object at `addr` is marked; `false` where there is none.
pub fn is_marked(heap: &Heap, addr: ObjAddr) -> (marked: bool)
    ensures
        marked == (heap@.objects.contains_key(addr) && heap@.objects[addr].marked),
{
    match heap.objects.get(&addr) {
        Some(obj) => obj.header.marked,
        None => false,
    }
}

/// Clears the mark of the object at `addr`, if there is one.
pub fn unmark(heap: &mut Heap, addr: ObjAddr)
    ensures
        final(heap)@ == if old(heap)@.objects.contains_key(addr) {
            HeapView {
                objects: old(heap)@.objects.insert(
                    addr,
                    ObjectView { marked: false, ..old(heap)@.objects[addr] },
                ),
                ..old(heap)@
            }
        } else {
            old(heap)@
        },
{
    let ghost raw = heap.objects@;
    match heap.objects.remove(&addr) {
        Some(mut obj) => {
            obj.header.marked = false;
            heap.objects.insert(addr, obj);
            proof {
                lemma_views_remove(raw, addr);
                lemma_views_insert(raw.remove(addr), addr, obj);
                assert(heap@.objects =~= old(heap)@.objects.insert(
                    addr,
                    ObjectView { marked: false, ..old(heap)@.objects[addr] },
                ));
            }
        },
        None => {
            assert(heap.objects@ =~= raw);
        },
    }
}

/// The heap with the object at `b` marked.
pub open spec fn with_mark(h: HeapView, b: usize) -> HeapView {
    HeapView { objects: h.objects.insert(b, ObjectView { marked: true, ..h.objects[b] }), ..h }
}

/// A walk goes on after it has passed over an address that is no
/// unmarked object.
proof fn lemma_walk_skip(h0: HeapView, h: HeapView, start: usize, rest: Seq<usize>, current: usize)
    requires
        walking(h0, h, start, rest.push(current)),
        !(h.objects.contains_key(current) && !h.objects[current].marked),
    ensures
        walking(h0, h, start, rest),
{
    let before = rest.push(current);
    assert forall|b: usize| before.contains(b) implies rest.contains(b) || b == current by {
        let i = choose|i: int| 0 <= i < before.len() && before[i] == b;
        if i < rest.len() {
            assert(rest[i] == b);
        }
    }
    assert forall|a: usize, b: usize| #[trigger]
        refers(h0, a, b) && h.objects[a].marked && !h0.objects[a].marked implies h.objects[b].marked
        || rest.contains(b) by {
        if !h.objects[b].marked {
            assert(before.contains(b));
            assert(h.objects.contains_key(b));
        }
    }
    assert forall|i: int|
        0 <= i < rest.len() && h0.objects.contains_key(#[trigger] rest[i])
            && !h0.objects[rest[i]].marked implies white_path(h0, start, rest[i]) by {
        assert(before[i] == rest[i]);
    }
    if h0.objects.contains_key(start) && !h0.objects[start].marked && !h.objects[start].marked {
        assert(before.contains(start));
        assert(h.objects.contains_key(start));
    }
}

/// A walk goes on after it has marked an unmarked object and put the
/// targets of its references on the stack.
proof fn lemma_walk_visit(
    h0: HeapView,
    h: HeapView,
    start: usize,
    rest: Seq<usize>,
    current: usize,
    stack2: Seq<usize>,
)
    requires
        walking(h0, h, start, rest.push(current)),
        h.objects.contains_key(current),
        !h.objects[current].marked,
        rest.len() <= stack2.len(),
        forall|i: int| 0 <= i < rest.len() ==> #[trigger] stack2[i] == rest[i],
        forall|i: int|
            rest.len() <= i < stack2.len() ==> refers(h0, current, #[trigger] stack2[i])
                || !h0.objects.contains_key(stack2[i]),
        forall|i: int|
            0 <= i < h0.objects[current].fields.len() ==> targets_in(
                #[trigger] h0.objects[current].fields[i],
                stack2,
            ),
    ensures
        walking(h0, with_mark(h, current), start, stack2),
        white_path(h0, start, current),
{
    let before = rest.push(current);
    let h2 = with_mark(h, current);
    assert(h0.objects.contains_key(current));
    assert(before[before.len() - 1] == current);
    assert(white_path(h0, start, current));
    assert(h2.objects.dom() =~= h0.objects.dom());
    assert(same_but_marks(h0, h2));
    assert forall|b: usize| before.contains(b) implies rest.contains(b) || b == current by {
        let i = choose|i: int| 0 <= i < before.len() && before[i] == b;
        if i < rest.len() {
            assert(rest[i] == b);
        }
    }
    assert forall|b: usize| rest.contains(b) implies stack2.contains(b) by {
        let i = choose|i: int| 0 <= i < rest.len() && rest[i] == b;
        assert(stack2[i] == b);
    }
    assert forall|b: usize| #[trigger]
        h2.objects.contains_key(b) && h2.objects[b].marked
            && !h0.objects[b].marked implies white_path(h0, start, b) by {
        if b != current {
            assert(h.objects.contains_key(b));
        }
    }
    assert forall|i: int|
        0 <= i < stack2.len() && h0.objects.contains_key(#[trigger] stack2[i])
            && !h0.objects[stack2[i]].marked implies white_path(h0, start, stack2[i]) by {
        if i < rest.len() {
            assert(before[i] == stack2[i]);
        } else {
            let t = stack2[i];
            let p = choose|p: Seq<usize>|
                #[trigger] is_chain(h0, p) && p[0] == start && p.last() == current && forall|
                    i: int,
                |
                    0 <= i < p.len() ==> !h0.objects[#[trigger] p[i]].marked;
            lemma_chain_push(h0, p, t);
            let q = p.push(t);
            assert forall|k: int| 0 <= k < q.len() implies !h0.objects[#[trigger] q[k]].marked by {
                if k < p.len() {
                    assert(q[k] == p[k]);
                }
            }
            assert(is_chain(h0, q) && q[0] == start && q.last() == t);
        }
    }
    assert forall|a: usize, b: usize| #[trigger]
        refers(h0, a, b) && h2.objects[a].marked
            && !h0.objects[a].marked implies h2.objects[b].marked || stack2.contains(b) by {
        if a == current {
            let i = choose|i: int|
                0 <= i < h0.objects[a].fields.len() && #[trigger] h0.objects[a].fields[i] == (
                Field::Ref { addr: Address::Ptr(b) });
            assert(targets_in(h0.objects[current].fields[i], stack2));
            assert(h0.objects[a].fields[i].target() == Some(b));
        } else {
            assert(h.objects.contains_key(a));
            assert(h.objects[a].marked);
            if !h.objects[b].marked {
                assert(before.contains(b));
            }
        }
    }
    assert(h2.objects[current].marked);
    if h0.objects.contains_key(start) && !h0.objects[start].marked {
        if start != current && !h.objects[start].marked {
            assert(before.contains(start));
        }
    }
}

/// The log of a walk after one more object was marked.
proof fn lemma_log_mark(
    log0: Seq<GCEvent>,
    log: Seq<GCEvent>,
    h0: HeapView,
    h: HeapView,
    current: usize,
)
    requires
        marks_logged(log0, log, h0, h),
        same_but_marks(h0, h),
        h.objects.contains_key(current),
        !h.objects[current].marked,
        forall|b: usize| #[trigger]
            h.objects.contains_key(b) && h0.objects[b].marked ==> h.objects[b].marked,
    ensures
        marks_logged(log0, log.push(mark_event(h0, current)), h0, with_mark(h, current)),
{
    let h2 = with_mark(h, current);
    let log2 = log.push(mark_event(h0, current));
    assert(h2.objects.contains_key(current));
    assert(h0.objects.contains_key(current));
    assert forall|i: int| log0.len() <= i < log2.len() implies marks_fresh(
        #[trigger] log2[i],
        h0,
        h2,
    ) by {
        if i < log.len() {
            assert(marks_fresh(log[i], h0, h));
            let b = choose|b: usize|
                #[trigger] h.objects.contains_key(b) && h.objects[b].marked
                    && !h0.objects[b].marked && log[i] == mark_event(h0, b);
            assert(h2.objects.contains_key(b));
        } else {
            assert(h2.objects.contains_key(current) && h2.objects[current].marked);
        }
    }
    assert forall|b: usize|
        #[trigger] h2.objects.contains_key(b) && h2.objects[b].marked
            && !h0.objects[b].marked implies exists|i: int|
        log0.len() <= i < log2.len() && #[trigger] log2[i] == mark_event(h0, b) by {
        if b == current {
            assert(log2[log.len() as int] == mark_event(h0, b));
        } else {
            assert(h.objects.contains_key(b));
            let i = choose|i: int|
                log0.len() <= i < log.len() && #[trigger] log[i] == mark_event(h0, b);
            assert(log2[i] == mark_event(h0, b));
        }
    }
    assert forall|i: int, j: int| log0.len() <= i < j < log2.len() implies #[trigger] log2[i]
        != #[trigger] log2[j] by {
        if j == log.len() {
            assert(marks_fresh(log[i], h0, h));
            let b = choose|b: usize|
                #[trigger] h.objects.contains_key(b) && h.objects[b].marked
                    && !h0.objects[b].marked && log[i] == mark_event(h0, b);
            assert(b != current);
        } else {
            assert(log[i] != log[j]);
        }
    }
}

/// Marks every unmarked object that a chain of unmarked objects from
/// `addr` leads to, `addr` included, and logs one mark event for each.
///
/// The walk keeps its own stack. References to null, and to addresses
/// that are no object base, are passed over.
pub fn mark(addr: &ObjAddr, heap: &mut Heap, eventlog: &mut Vec<GCEvent>)
    ensures
        same_but_marks(old(heap)@, final(heap)@),
        forall|b: usize| #[trigger]
            final(heap)@.objects.contains_key(b)
                ==> (final(heap)@.objects[b].marked <==> old(heap)@.objects[b].marked
                || white_path(old(heap)@, *addr, b)),
        marks_logged(old(eventlog)@, final(eventlog)@, old(heap)@, final(heap)@),
        final(eventlog)@ == old(eventlog)@ + mark_events(
            old(heap)@,
            visits(old(heap)@, white(old(heap)@), seq![*addr]),
        ),
{
    let ghost h0 = heap@;
    let ghost log0 = eventlog@;
    let ghost start = *addr;
    let mut stack: Vec<usize> = Vec::new();
    stack.push(*addr);
    let ghost mut unmarked: Set<usize> = Set::new(
        |b: usize| h0.objects.contains_key(b) && !h0.objects[b].marked,
    );
    let ghost whole = visits(h0, white(h0), seq![start]);
    proof {
        assert(unmarked.subset_of(h0.objects.dom()));
        assert(heap.objects@.dom() =~= h0.objects.dom());
        vstd::set_lib::lemma_len_subset(unmarked, h0.objects.dom());
        assert(unmarked =~= white(h0));
        assert(stack@ =~= seq![start]);
        assert(eventlog@ + mark_events(h0, whole) == log0 + mark_events(h0, whole));
        assert(stack@[0] == start);
        assert(stack@.contains(start));
        if h0.objects.contains_key(start) && !h0.objects[start].marked {
            let p = seq![start];
            assert(is_chain(h0, p));
            assert(white_path(h0, start, start));
        }
    }
    while stack.len() > 0
        invariant
            walking(h0, heap@, start, stack@),
            marks_logged(log0, eventlog@, h0, heap@),
            unmarked.finite(),
            forall|b: usize|
                unmarked.contains(b) <==> heap@.objects.contains_key(b) && !heap@.objects[b].marked,
            eventlog@ + mark_events(h0, visits(h0, unmarked, stack@)) == log0 + mark_events(
                h0,
                whole,
            ),
        decreases unmarked.len(), stack.len(),
    {
        let ghost h = heap@;
        let ghost before = stack@;
        let ghost log = eventlog@;
        let current = stack.pop().unwrap();
        let ghost rest = stack@;
        assert(before =~= rest.push(current));
        let fresh = match heap.objects.get(&current) {
            Some(obj) => !obj.header.marked,
            None => false,
        };
        if fresh {
            let ghost raw = heap.objects@;
            let mut obj = heap.objects.remove(&current).unwrap();
            obj.header.marked = true;
            eventlog.push(GCEvent::MarkObject { addr: current, size: obj.size() });
            assert(h0.objects.contains_key(current));
            let mut j: usize = 0;
            while j < obj.fields.len()
                invariant
                    j <= obj.fields.len(),
                    h0.objects.contains_key(current),
                    obj@.fields == h0.objects[current].fields,
                    forall|i: int| 0 <= i < rest.len() ==> #[trigger] stack@[i] == rest[i],
                    rest.len() <= stack@.len(),
                    forall|i: int|
                        rest.len() <= i < stack@.len() ==> refers(h0, current, #[trigger] stack@[i])
                            || !h0.objects.contains_key(stack@[i]),
                    forall|i: int| 0 <= i < j ==> targets_in(#[trigger] obj@.fields[i], stack@),
                    stack@ == rest + targets(obj@.fields.take(j as int)),
                decreases obj.fields.len() - j,
            {
                let ghost pushed = stack@;
                proof {
                    let upto = obj@.fields.take(j + 1);
                    assert(upto.drop_last() =~= obj@.fields.take(j as int));
                    assert(upto.last() == obj@.fields[j as int]);
                }
                match obj.fields[j] {
                    Field::Ref { addr: Address::Ptr(target) } => {
                        stack.push(target);
                        proof {
                            assert(stack@ =~= rest + targets(obj@.fields.take(j + 1)));
                            assert(stack@[stack@.len() - 1] == target);
                            assert(stack@.contains(target));
                            if h0.objects.contains_key(target) {
                                assert(h0.objects[current].fields[j as int] == (Field::Ref {
                                    addr: Address::Ptr(target),
                                }));
                                assert(refers(h0, current, target));
                            }
                            assert forall|i: int| 0 <= i < j implies targets_in(
                                #[trigger] obj@.fields[i],
                                stack@,
                            ) by {
                                if let Some(t) = obj@.fields[i].target() {
                                    assert(targets_in(obj@.fields[i], pushed));
                                    let k = choose|k: int| 0 <= k < pushed.len() && pushed[k] == t;
                                    assert(stack@[k] == t);
                                }
                            }
                        }
                    },
                    _ => {},
                }
                j += 1;
            }
            heap.objects.insert(current, obj);
            proof {
                lemma_views_remove(raw, current);
                lemma_views_insert(raw.remove(current), current, obj);
                assert(heap@.objects =~= with_mark(h, current).objects);
                assert(heap@ == with_mark(h, current));
                vstd::set::axiom_set_remove_len(unmarked, current);
                unmarked = unmarked.remove(current);
                lemma_walk_visit(h0, h, start, rest, current, stack@);
                lemma_log_mark(log0, log, h0, h, current);
                assert(eventlog@ == log.push(mark_event(h0, current)));
                assert(obj@.fields.take(obj@.fields.len() as int) =~= obj@.fields);
                let ghost white0 = unmarked.insert(current);
                assert(white0.remove(current) =~= unmarked);
                assert(before.last() == current && before.drop_last() =~= rest);
                let ghost next = visits(h0, unmarked, stack@);
                assert(visits(h0, white0, before) == seq![current] + next);
                assert(mark_events(h0, seq![current] + next) =~= seq![mark_event(h0, current)]
                    + mark_events(h0, next));
                assert(eventlog@ + mark_events(h0, next) =~= log + mark_events(
                    h0,
                    seq![current] + next,
                ));
            }
        } else {
            proof {
                lemma_walk_skip(h0, h, start, rest, current);
                assert(before.last() == current && before.drop_last() =~= rest);
                assert(!unmarked.contains(current));
            }
        }
    }
    proof {
        let h = heap@;
        assert(stack@ =~= Seq::<usize>::empty());
        assert(eventlog@ + mark_events(h0, visits(h0, unmarked, stack@)) =~= eventlog@);
        assert forall|b: usize| #[trigger] h.objects.contains_key(b) implies (h.objects[b].marked
            <==> h0.objects[b].marked || white_path(h0, start, b)) by {
            if white_path(h0, start, b) {
                let p = choose|p: Seq<usize>|
                    #[trigger] is_chain(h0, p) && p[0] == start && p.last() == b && forall|i: int|
                        0 <= i < p.len() ==> !h0.objects[#[trigger] p[i]].marked;
                lemma_walk_complete(h0, h, start, p, p.len() - 1);
            }
        }
    }
}

/// The marks of `h` are sound and closed: every marked object is
/// reachable in `h0`, and every reference of a marked object leads to a
/// marked object.
pub open spec fn traced(h0: HeapView, h: HeapView) -> bool {
    &&& same_but_marks(h0, h)
    &&& forall|b: usize| #[trigger]
        h.objects.contains_key(b) && h.objects[b].marked ==> reachable(h0, b)
    &&& forall|a: usize, b: usize| #[trigger]
        refers(h0, a, b) && h.objects[a].marked ==> h.objects[b].marked
}

/// The marks stay sound and closed over a walk from a root.
proof fn lemma_traced_step(h0: HeapView, h: HeapView, h2: HeapView, root: usize)
    requires
        traced(h0, h),
        h0.roots.contains(root),
        same_but_marks(h, h2),
        forall|b: usize| #[trigger]
            h2.objects.contains_key(b) ==> (h2.objects[b].marked <==> h.objects[b].marked
                || white_path(h, root, b)),
    ensures
        traced(h0, h2),
        h0.objects.contains_key(root) ==> h2.objects[root].marked,
        forall|b: usize| #[trigger]
            h.objects.contains_key(b) && h.objects[b].marked ==> h2.objects[b].marked,
{
    lemma_marks_keep_refers(h0, h);
    assert(h2.objects.dom() =~= h0.objects.dom());
    assert forall|b: usize| #[trigger]
        h2.objects.contains_key(b) && h2.objects[b].marked implies reachable(h0, b) by {
        assert(h.objects.contains_key(b));
        if !h.objects[b].marked {
            let p = choose|p: Seq<usize>|
                #[trigger] is_chain(h, p) && p[0] == root && p.last() == b && forall|i: int|
                    0 <= i < p.len() ==> !h.objects[#[trigger] p[i]].marked;
            lemma_marks_keep_chain(h, h0, p);
            assert(h0.roots.contains(p[0]));
        }
    }
    assert forall|a: usize, b: usize| #[trigger]
        refers(h0, a, b) && h2.objects[a].marked implies h2.objects[b].marked by {
        assert(h.objects.contains_key(a) && h.objects.contains_key(b));
        assert(h2.objects.contains_key(a) && h2.objects.contains_key(b));
        if h.objects[a].marked {
            assert(h.objects[b].marked);
        } else if !h.objects[b].marked {
            let p = choose|p: Seq<usize>|
                #[trigger] is_chain(h, p) && p[0] == root && p.last() == a && forall|i: int|
                    0 <= i < p.len() ==> !h.objects[#[trigger] p[i]].marked;
            assert(refers(h, a, b));
            lemma_chain_push(h, p, b);
            let q = p.push(b);
            assert forall|k: int| 0 <= k < q.len() implies !h.objects[#[trigger] q[k]].marked by {
                if k < p.len() {
                    assert(q[k] == p[k]);
                }
            }
            assert(is_chain(h, q) && q[0] == root && q.last() == b);
            assert(white_path(h, root, b));
        }
    }
    if h0.objects.contains_key(root) {
        assert(h.objects.contains_key(root) && h2.objects.contains_key(root));
        if !h.objects[root].marked {
            let p = seq![root];
            assert(is_chain(h, p));
            assert(white_path(h, root, root));
        }
    }
    assert forall|b: usize| #[trigger]
        h.objects.contains_key(b) && h.objects[b].marked implies h2.objects[b].marked by {
        assert(h2.objects.contains_key(b));
    }
}

/// The log of two walks, one after the other.
proof fn lemma_log_join(
    log0: Seq<GCEvent>,
    log: Seq<GCEvent>,
    log2: Seq<GCEvent>,
    h0: HeapView,
    h: HeapView,
    h2: HeapView,
)
    requires
        marks_logged(log0, log, h0, h),
        marks_logged(log, log2, h, h2),
        same_but_marks(h0, h),
        same_but_marks(h, h2),
        forall|b: usize| #[trigger]
            h.objects.contains_key(b) && h0.objects[b].marked ==> h.objects[b].marked,
        forall|b: usize| #[trigger]
            h.objects.contains_key(b) && h.objects[b].marked ==> h2.objects[b].marked,
    ensures
        marks_logged(log0, log2, h0, h2),
{
    assert(h2.objects.dom() =~= h0.objects.dom());
    assert forall|i: int| 0 <= i < log0.len() implies #[trigger] log2[i] == log0[i] by {
        assert(log2[i] == log[i]);
    }
    assert forall|i: int| log0.len() <= i < log2.len() implies marks_fresh(
        #[trigger] log2[i],
        h0,
        h2,
    ) by {
        if i < log.len() {
            assert(log2[i] == log[i]);
            assert(marks_fresh(log[i], h0, h));
            let b = choose|b: usize|
                #[trigger] h.objects.contains_key(b) && h.objects[b].marked
                    && !h0.objects[b].marked && log[i] == mark_event(h0, b);
            assert(h2.objects.contains_key(b));
        } else {
            assert(marks_fresh(log2[i], h, h2));
            let b = choose|b: usize|
                #[trigger] h2.objects.contains_key(b) && h2.objects[b].marked
                    && !h.objects[b].marked && log2[i] == mark_event(h, b);
            assert(h0.objects.contains_key(b) && h.objects.contains_key(b));
            assert(mark_event(h, b) == mark_event(h0, b));
        }
    }
    assert forall|b: usize|
        #[trigger] h2.objects.contains_key(b) && h2.objects[b].marked
            && !h0.objects[b].marked implies exists|i: int|
        log0.len() <= i < log2.len() && #[trigger] log2[i] == mark_event(h0, b) by {
        assert(h.objects.contains_key(b) && h0.objects.contains_key(b));
        if h.objects[b].marked {
            let i = choose|i: int|
                log0.len() <= i < log.len() && #[trigger] log[i] == mark_event(h0, b);
            assert(log2[i] == log[i]);
        } else {
            let i = choose|i: int|
                log.len() <= i < log2.len() && #[trigger] log2[i] == mark_event(h, b);
            assert(mark_event(h, b) == mark_event(h0, b));
        }
    }
    assert forall|i: int, j: int| log0.len() <= i < j < log2.len() implies #[trigger] log2[i]
        != #[trigger] log2[j] by {
        if j < log.len() {
            assert(log2[i] == log[i] && log2[j] == log[j]);
        } else if i >= log.len() {
        } else {
            assert(log2[i] == log[i]);
            assert(marks_fresh(log[i], h0, h));
            assert(marks_fresh(log2[j], h, h2));
            let a = choose|b: usize|
                #[trigger] h.objects.contains_key(b) && h.objects[b].marked
                    && !h0.objects[b].marked && log[i] == mark_event(h0, b);
            let b = choose|b: usize|
                #[trigger] h2.objects.contains_key(b) && h2.objects[b].marked
                    && !h.objects[b].marked && log2[j] == mark_event(h, b);
            assert(a != b);
        }
    }
}

/// Once every root that is an object is marked, and the marks are sound
/// and closed, the marked objects are the reachable ones.
proof fn lemma_traced_all(h_in: HeapView, h0: HeapView, h: HeapView)
    requires
        same_but_marks(h_in, h0),
        traced(h0, h),
        forall|r: usize| #[trigger]
            h0.roots.contains(r) && h0.objects.contains_key(r) ==> h.objects[r].marked,
    ensures
        same_but_marks(h_in, h),
        forall|b: usize| #[trigger]
            h.objects.contains_key(b) ==> (h.objects[b].marked <==> reachable(h_in, b)),
{
    assert(h.objects.dom() =~= h_in.objects.dom());
    assert(same_but_marks(h_in, h));
    assert forall|b: usize| #[trigger] h.objects.contains_key(b) implies (h.objects[b].marked
        <==> reachable(h_in, b)) by {
        assert(h0.objects.contains_key(b));
        lemma_marks_keep_reachable(h_in, h0, b);
        if reachable(h0, b) {
            lemma_reached_marked(h0, h, b);
        }
    }
}

/// Where the roots are marked and the marks are closed, a reachable object is marked.
proof fn lemma_reached_marked(h0: HeapView, h: HeapView, b: usize)
    requires
        traced(h0, h),
        forall|r: usize| #[trigger]
            h0.roots.contains(r) && h0.objects.contains_key(r) ==> h.objects[r].marked,
        reachable(h0, b),
    ensures
        h.objects[b].marked,
{
    let p = choose|p: Seq<usize>|
        #[trigger] is_chain(h0, p) && h0.roots.contains(p[0]) && p.last() == b;
    lemma_marks_keep_chain(h0, h, p);
    lemma_marks_keep_refers(h0, h);
    assert(h.objects[p[0]].marked);
    lemma_closed_chain(h, p, p.len() - 1);
}

/// After a walk that has logged its marks in their order, the unmarked
/// objects are those of before but for the ones that the walk visited.
proof fn lemma_white_after(
    h: HeapView,
    h2: HeapView,
    log: Seq<GCEvent>,
    log2: Seq<GCEvent>,
    order: Seq<usize>,
)
    requires
        same_but_marks(h, h2),
        marks_logged(log, log2, h, h2),
        log2 == log + mark_events(h, order),
        forall|i: int| 0 <= i < order.len() ==> white(h).contains(#[trigger] order[i]),
        forall|b: usize| #[trigger]
            h.objects.contains_key(b) && h.objects[b].marked ==> h2.objects[b].marked,
    ensures
        white(h2) == white(h).difference(order.to_set()),
{
    assert(h2.objects.dom() =~= h.objects.dom());
    assert forall|b: usize| white(h2).contains(b) <==> white(h).difference(
        order.to_set(),
    ).contains(b) by {
        if white(h2).contains(b) && order.to_set().contains(b) {
            let i = choose|i: int| 0 <= i < order.len() && order[i] == b;
            let at = log.len() + i;
            assert(log2[at] == mark_event(h, order[i]));
            assert(marks_fresh(log2[at], h, h2));
            let c = choose|c: usize|
                #[trigger] h2.objects.contains_key(c) && h2.objects[c].marked
                    && !h.objects[c].marked && log2[at] == mark_event(h, c);
            assert(c == b);
        }
        if white(h).contains(b) && !order.to_set().contains(b) && h2.objects[b].marked {
            assert(h2.objects.contains_key(b));
            let at = choose|at: int|
                log.len() <= at < log2.len() && #[trigger] log2[at] == mark_event(h, b);
            assert(log2[at] == mark_event(h, order[at - log.len()]));
            assert(order[at - log.len()] == b);
            assert(order.contains(b));
        }
    }
    assert(white(h2) =~= white(h).difference(order.to_set()));
}

/// The mark events of a walk are the same whatever the marks of the
/// heap that gives the sizes.
proof fn lemma_mark_events_same(h1: HeapView, h2: HeapView, order: Seq<usize>)
    requires
        same_but_marks(h1, h2),
        forall|i: int| 0 <= i < order.len() ==> h1.objects.contains_key(#[trigger] order[i]),
    ensures
        mark_events(h1, order) == mark_events(h2, order),
{
    assert(h2.objects.dom() =~= h1.objects.dom());
    assert forall|i: int| 0 <= i < order.len() implies mark_event(h1, order[i]) == mark_event(
        h2,
        order[i],
    ) by {
        assert(h2.objects.contains_key(order[i]));
    }
    assert(mark_events(h1, order) =~= mark_events(h2, order));
}

/// Clears every mark, then marks the objects that a chain of references
/// from a root leads to, and logs one mark event for each of them: a
/// walk from each root, the roots in the order of their addresses.
pub fn mark_from_roots(heap: &mut Heap, eventlog: &mut Vec<GCEvent>)
    ensures
        same_but_marks(old(heap)@, final(heap)@),
        forall|b: usize| #[trigger]
            final(heap)@.objects.contains_key(b) ==> (final(heap)@.objects[b].marked
                <==> reachable(old(heap)@, b)),
        marks_logged(old(eventlog)@, final(eventlog)@, cleared(old(heap)@), final(heap)@),
        final(eventlog)@ == old(eventlog)@ + mark_trace(old(heap)@),
{
    let ghost h_in = heap@;
    let keys = sorted_keys(&heap.objects);
    let mut i: usize = 0;
    while i < keys.len()
        invariant
            i <= keys.len(),
            lists(keys@, h_in.objects.dom()),
            same_but_marks(h_in, heap@),
            forall|j: int| 0 <= j < i ==> !heap@.objects[#[trigger] keys@[j]].marked,
        decreases keys.len() - i,
    {
        assert(keys@.contains(keys@[i as int]));
        let ghost before = heap@;
        unmark(heap, keys[i]);
        proof {
            assert(heap@.objects.dom() =~= before.objects.dom());
            assert forall|j: int| 0 <= j < i + 1
                implies !heap@.objects[#[trigger] keys@[j]].marked by {
                if j < i {
                    assert(keys@[j] != keys@[i as int]);
                    assert(!before.objects[keys@[j]].marked);
                }
            }
        }
        i += 1;
    }
    let ghost h0 = heap@;
    proof {
        assert forall|b: usize| #[trigger] h0.objects.contains_key(b)
            implies !h0.objects[b].marked by {
            assert(keys@.contains(b));
            let j = choose|j: int| 0 <= j < keys@.len() && keys@[j] == b;
            assert(!h0.objects[keys@[j]].marked);
        }
        assert(h0.objects =~= cleared(h_in).objects);
        assert(h0 == cleared(h_in));
    }
    let roots = sorted_members(&heap.roots);
    let ghost log0 = eventlog@;
    let ghost whole = rounds(h_in, h_in.objects.dom(), roots@);
    proof {
        assert(white(h0) =~= h_in.objects.dom());
        assert(roots@.skip(0) =~= roots@);
        assert(heap.objects@.dom() =~= h_in.objects.dom());
    }
    let mut r: usize = 0;
    while r < roots.len()
        invariant
            r <= roots.len(),
            lists(roots@, h0.roots),
            traced(h0, heap@),
            same_but_marks(h_in, h0),
            h_in.objects.dom().finite(),
            forall|b: usize| #[trigger] h0.objects.contains_key(b) ==> !h0.objects[b].marked,
            forall|j: int|
                0 <= j < r && h0.objects.contains_key(#[trigger] roots@[j])
                    ==> heap@.objects[roots@[j]].marked,
            marks_logged(log0, eventlog@, h0, heap@),
            eventlog@ + mark_events(h_in, rounds(h_in, white(heap@), roots@.skip(r as int)))
                == log0 + mark_events(h_in, whole),
        decreases roots.len() - r,
    {
        let ghost h = heap@;
        let ghost log = eventlog@;
        let root = roots[r];
        assert(roots@.contains(roots@[r as int]));
        mark(&root, heap, eventlog);
        proof {
            let left = roots@.skip(r as int);
            let order = visits(h, white(h), seq![root]);
            assert(white(h).subset_of(h_in.objects.dom()));
            vstd::set_lib::lemma_len_subset(white(h), h_in.objects.dom());
            lemma_visits_white(h, white(h), seq![root]);
            lemma_visits_fields(h_in, h, white(h), seq![root]);
            assert(same_but_marks(h_in, h));
            lemma_mark_events_same(h_in, h, order);
            lemma_white_after(h, heap@, log, eventlog@, order);
            assert(left.first() == root);
            assert(left.drop_first() =~= roots@.skip(r + 1));
            let later = rounds(h_in, white(heap@), roots@.skip(r + 1));
            assert(rounds(h_in, white(h), left) == order + later);
            assert(mark_events(h_in, order + later) =~= mark_events(h_in, order) + mark_events(
                h_in,
                later,
            ));
            assert(eventlog@ + mark_events(h_in, later) =~= log + mark_events(
                h_in,
                rounds(h_in, white(h), left),
            ));
            lemma_traced_step(h0, h, heap@, root);
            lemma_log_join(log0, log, eventlog@, h0, h, heap@);
            assert forall|j: int|
                0 <= j < r + 1 && h0.objects.contains_key(
                    #[trigger] roots@[j],
                ) implies heap@.objects[roots@[j]].marked by {
                assert(h.objects.contains_key(roots@[j]));
            }
        }
        r += 1;
    }
    proof {
        assert forall|q: usize| #[trigger]
            h0.roots.contains(q) && h0.objects.contains_key(q) implies heap@.objects[q].marked by {
            assert(roots@.contains(q));
            let j = choose|j: int| 0 <= j < roots@.len() && roots@[j] == q;
            assert(heap@.objects[roots@[j]].marked);
        }
        lemma_traced_all(h_in, h0, heap@);
        assert(roots@.skip(roots@.len() as int) =~= Seq::<usize>::empty());
        assert(eventlog@ + mark_events(h_in, Seq::<usize>::empty()) =~= eventlog@);
        lemma_ascending_of(roots@, h_in.roots);
    }
}

/// The heap with every mark cleared.
pub open spec fn cleared(h: HeapView) -> HeapView {
    HeapView {
        objects: Map::new(
            |b: usize| h.objects.contains_key(b),
            |b: usize| ObjectView { marked: false, ..h.objects[b] },
        ),
        ..h
    }
}

/// What a collector marks with: the walk from the roots, and the walk
/// from one address that it is made of.
pub trait ObjectMarker {
    /// Clears every mark, then marks what a chain of references from a
    /// root leads to.
    fn mark_from_roots(&self, heap: &mut Heap, eventlog: &mut Vec<GCEvent>)
        ensures
            same_but_marks(old(heap)@, final(heap)@),
            forall|b: usize| #[trigger]
                final(heap)@.objects.contains_key(b) ==> (final(heap)@.objects[b].marked
                    <==> reachable(old(heap)@, b)),
            marks_logged(old(eventlog)@, final(eventlog)@, cleared(old(heap)@), final(heap)@),
            final(eventlog)@ == old(eventlog)@ + mark_trace(old(heap)@),
    ;

    /// Marks every unmarked object that a chain of unmarked objects
    /// from `addr` leads to.
    fn mark(&self, addr: &ObjAddr, heap: &mut Heap, eventlog: &mut Vec<GCEvent>)
        ensures
            same_but_marks(old(heap)@, final(heap)@),
            forall|b: usize| #[trigger]
                final(heap)@.objects.contains_key(b)
                    ==> (final(heap)@.objects[b].marked
                        <==> old(heap)@.objects[b].marked || white_path(old(heap)@, *addr, b)),
            marks_logged(old(eventlog)@, final(eventlog)@, old(heap)@, final(heap)@),
            final(eventlog)@ == old(eventlog)@ + mark_events(
                old(heap)@,
                visits(old(heap)@, white(old(heap)@), seq![*addr]),
            ),
    ;
}

} // verus!
