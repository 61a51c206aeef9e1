use crate::gc::common::lemma_headers_keep_layout;
use crate::gc::common::same_but_headers;
use crate::gc::common::set_header;
use crate::gc::lemma_log_push;
use crate::gc::log_of;
use crate::gc::phase;
use crate::gc::GCEvent;
use crate::gc::GCEventView;
use crate::object::ObjectView;
use crate::heap::align_up;
use crate::heap::aligned;
use crate::heap::lemma_align_up;
use crate::heap::lemma_views_insert;
use crate::heap::lemma_views_remove;
use crate::heap::Heap;
use crate::heap::HeapView;
use crate::mutator::base_of;
use crate::mutator::lemma_base_of;
use crate::object::Address;
use crate::object::Field;
use crate::object::ObjHeader;
use crate::ordered::lists;
use crate::ordered::sorted_keys;
use vstd::prelude::*;

verus! {

/// The size of the object at `b`, rounded up to the heap's alignment.
pub open spec fn padded(h: HeapView, b: usize) -> int {
    align_up(h.objects[b].fields.len() as int, h.alignment as int)
}

/// The sum of the padded sizes of the marked objects that start below
/// `limit`: where the next marked object goes when the marked objects are
/// packed from address 0 on.
pub open spec fn packed_below(h: HeapView, limit: int) -> int
    decreases limit,
{
    if limit <= 0 {
        0
    } else {
        packed_below(h, limit - 1) + if h.objects.contains_key((limit - 1) as usize)
            && h.objects[(limit - 1) as usize].marked {
            padded(h, (limit - 1) as usize)
        } else {
            0
        }
    }
}

/// Every marked object has a forwarding address: not above its own,
/// aligned, and behind the new place of every marked object before it.
pub open spec fn planned(h: HeapView) -> bool {
    &&& forall|b: usize| #[trigger]
        h.objects.contains_key(b) && h.objects[b].marked ==> goes_down(h, b)
    &&& forall|a: usize, b: usize|
        #![trigger h.objects.contains_key(a), h.objects.contains_key(b)]
        h.objects.contains_key(a) && h.objects.contains_key(b) && h.objects[a].marked
            && h.objects[b].marked && a < b ==> h.objects[a].fwd_addr->0
            + h.objects[a].fields.len() <= h.objects[b].fwd_addr->0
}

/// The object at `b` has a forwarding address, not above its own, and aligned.
pub open spec fn goes_down(h: HeapView, b: usize) -> bool {
    &&& h.objects[b].fwd_addr is Some
    &&& h.objects[b].fwd_addr->0 <= b
    &&& aligned(h.objects[b].fwd_addr->0, h.alignment)
}

/// The field after the references were updated: a reference into an
/// object with a forwarding address refers to the same field at the new
/// place, where that is an address of the machine; any other field stays.
pub open spec fn forwarded(h: HeapView, field: Field) -> Field {
    match field {
        Field::Ref { addr: Address::Ptr(a) } => match base_of(h, a) {
            Some(b) => match h.objects[b].fwd_addr {
                Some(d) => if d + (a - b) <= usize::MAX {
                    Field::Ref { addr: Address::Ptr((d + (a - b)) as usize) }
                } else {
                    field
                },
                None => field,
            },
            None => field,
        },
        _ => field,
    }
}

/// The padded size is at least the size.
pub proof fn lemma_padded(h: HeapView, b: usize)
    ensures
        padded(h, b) >= h.objects[b].fields.len(),
        h.alignment > 0 ==> padded(h, b) % (h.alignment as int) == 0,
{
    if h.alignment > 0 {
        lemma_align_up(h.objects[b].fields.len() as int, h.alignment as int);
    }
}

/// The sum does not change over a stretch without a marked object.
pub proof fn lemma_packed_gap(h: HeapView, from: int, limit: int)
    requires
        0 <= from <= limit <= usize::MAX + 1,
        forall|b: usize| #[trigger]
            h.objects.contains_key(b) && h.objects[b].marked ==> !(from <= b < limit),
    ensures
        packed_below(h, limit) == packed_below(h, from),
    decreases limit - from,
{
    if from < limit {
        lemma_packed_gap(h, from, limit - 1);
    }
}

/// The sum grows with the limit.
pub proof fn lemma_packed_grows(h: HeapView, from: int, limit: int)
    requires
        0 <= from <= limit <= usize::MAX + 1,
    ensures
        packed_below(h, from) <= packed_below(h, limit),
    decreases limit - from,
{
    if from < limit {
        lemma_packed_grows(h, from, limit - 1);
        lemma_padded(h, (limit - 1) as usize);
    }
}

/// A multiple of the alignment that is at least `x` is at least `x` rounded up.
pub proof fn lemma_align_up_least(x: int, y: int, alignment: int)
    requires
        0 <= x <= y,
        0 < alignment,
        y % alignment == 0,
    ensures
        align_up(x, alignment) <= y,
{
    lemma_align_up(x, alignment);
    let c = align_up(x, alignment);
    vstd::arithmetic::div_mod::lemma_fundamental_div_mod(c, alignment);
    vstd::arithmetic::div_mod::lemma_fundamental_div_mod(y, alignment);
    let q1 = c / alignment;
    let q2 = y / alignment;
    if c > y {
        assert(q1 > q2) by (nonlinear_arith)
            requires
                alignment * q1 > alignment * q2,
                alignment > 0,
        ;
        assert(alignment * q1 >= alignment * q2 + alignment) by (nonlinear_arith)
            requires
                q1 >= q2 + 1,
                alignment > 0,
        ;
    }
}

/// The sum and the difference of two multiples are multiples.
pub proof fn lemma_multiples(a: int, b: int, alignment: int)
    requires
        0 < alignment,
        a % alignment == 0,
        b % alignment == 0,
    ensures
        (a + b) % alignment == 0,
        (a - b) % alignment == 0,
{
    vstd::arithmetic::div_mod::lemma_fundamental_div_mod(a, alignment);
    vstd::arithmetic::div_mod::lemma_fundamental_div_mod(b, alignment);
    let q1 = a / alignment;
    let q2 = b / alignment;
    assert(a + b == (q1 + q2) * alignment) by (nonlinear_arith)
        requires
            a == alignment * q1,
            b == alignment * q2,
    ;
    assert(a - b == (q1 - q2) * alignment) by (nonlinear_arith)
        requires
            a == alignment * q1,
            b == alignment * q2,
    ;
    vstd::arithmetic::div_mod::lemma_mod_multiples_basic(q1 + q2, alignment);
    vstd::arithmetic::div_mod::lemma_mod_multiples_basic(q1 - q2, alignment);
}

/// In a sound layout the marked objects, packed, stay below their places:
/// the padded size of an object leads no further than to the next object.
pub proof fn lemma_padded_fits(h: HeapView, a: usize, b: usize)
    requires
        h.shaped(),
        h.objects.contains_key(a),
        h.objects.contains_key(b),
        a < b,
    ensures
        a + padded(h, a) <= b,
{
    assert(h.objects.contains_key(a) && h.objects.contains_key(b));
    if h.alignment > 0 {
        let al = h.alignment as int;
        lemma_multiples(b as int, a as int, al);
        lemma_align_up_least(h.objects[a].fields.len() as int, b - a, al);
    }
}

/// The first pass: gives every marked object its forwarding address, the
/// sum of the padded sizes of the marked objects before it.
pub fn compute_locations(heap: &mut Heap, eventlog: &mut Vec<GCEvent>)
    requires
        old(heap)@.shaped(),
    ensures
        same_but_headers(old(heap)@, final(heap)@),
        forall|b: usize| #[trigger]
            final(heap)@.objects.contains_key(b)
                ==> final(heap)@.objects[b].marked == old(heap)@.objects[b].marked
                && final(heap)@.objects[b].fwd_addr == if old(heap)@.objects[b].marked {
                Some(packed_below(old(heap)@, b as int) as usize)
            } else {
                old(heap)@.objects[b].fwd_addr
            },
        forall|b: usize| #[trigger]
            old(heap)@.objects.contains_key(b) && old(heap)@.objects[b].marked ==> 0
                <= packed_below(old(heap)@, b as int) <= b,
        planned(final(heap)@),
        final(eventlog)@.len() == old(eventlog)@.len() + 1,
        forall|i: int| 0 <= i < old(eventlog)@.len() ==> final(eventlog)@[i] == old(eventlog)@[i],
        log_of(final(eventlog)@) == log_of(old(eventlog)@).push(phase("compute_locations"@)),
{
    let announce = GCEvent::phase("compute_locations".to_owned());
    proof {
        lemma_log_push(eventlog@, announce);
    }
    eventlog.push(announce);
    let ghost h = heap@;
    let keys = sorted_keys(&heap.objects);
    let n = keys.len();
    let mut free: usize = 0;
    let ghost mut limit: int = 0;
    let mut i: usize = 0;
    proof {
        assert forall|b: usize| #[trigger] h.objects.contains_key(b) implies 0 < n && b
            >= keys@[0] by {
            assert(keys@.contains(b));
            let j = choose|j: int| 0 <= j < keys@.len() && keys@[j] == b;
            if j > 0 {
                assert(keys@[0] < keys@[j]);
            }
        }
        if h.alignment > 0 {
            vstd::arithmetic::div_mod::lemma_small_mod(0nat, h.alignment as nat);
        }
    }
    while i < n
        invariant
            i <= n,
            n == keys.len(),
            h.shaped(),
            lists(keys@, h.objects.dom()),
            same_but_headers(h, heap@),
            0 <= limit <= usize::MAX + 1,
            i < n ==> limit <= keys@[i as int],
            forall|b: usize| #[trigger]
                h.objects.contains_key(b) && b >= limit ==> i < n && b >= keys@[i as int],
            forall|b: usize| #[trigger]
                heap@.objects.contains_key(b) ==> heap@.objects[b].marked == h.objects[b].marked
                    && heap@.objects[b].fwd_addr == if h.objects[b].marked && b < limit {
                    Some(packed_below(h, b as int) as usize)
                } else {
                    h.objects[b].fwd_addr
                },
            forall|b: usize| #[trigger]
                h.objects.contains_key(b) && h.objects[b].marked && b < limit ==> 0
                    <= packed_below(h, b as int) <= b && aligned(
                    packed_below(h, b as int) as usize,
                    h.alignment,
                ),
            i < n ==> free == packed_below(h, limit) && free <= keys@[i as int],
            h.alignment > 0 ==> packed_below(h, limit) % (h.alignment as int) == 0,
            0 <= packed_below(h, limit),
        decreases n - i,
    {
        let k = keys[i];
        let ghost cur = heap@;
        proof {
            assert(keys@.contains(keys@[i as int]));
            assert(h.objects.contains_key(k) && cur.objects.contains_key(k));
            lemma_packed_gap(h, limit, k as int);
            lemma_padded(h, k);
            if i + 1 < n {
                assert(keys@.contains(keys@[i + 1]));
                assert(keys@[i as int] < keys@[i + 1]);
                lemma_padded_fits(h, k, keys@[i + 1]);
            }
        }
        let object = heap.objects.get(&k).unwrap();
        let size = object.size();
        if object.header.marked {
            set_header(heap, k, ObjHeader { marked: true, fwd_addr: Some(free) });
            let pad = heap.aligned_position(size);
            free = match pad {
                Some(p) => match free.checked_add(p) {
                    Some(next) => next,
                    None => usize::MAX,
                },
                None => usize::MAX,
            };
            proof {
                if h.alignment > 0 {
                    lemma_multiples(
                        packed_below(h, k as int),
                        padded(h, k),
                        h.alignment as int,
                    );
                }
            }
        }
        proof {
            limit = k + 1;
            assert(heap@.objects.dom() =~= h.objects.dom());
            assert forall|b: usize| #[trigger]
                h.objects.contains_key(b) && b >= limit implies i + 1 < n && b >= keys@[i
                + 1] by {
                assert(keys@.contains(b));
                let j = choose|j: int| 0 <= j < keys@.len() && keys@[j] == b;
                if j <= i {
                    assert(keys@[j] <= keys@[i as int]);
                }
                if j > i + 1 {
                    assert(keys@[i + 1] < keys@[j]);
                }
            }
            assert forall|b: usize| #[trigger] heap@.objects.contains_key(b)
                implies heap@.objects[b].marked
                == h.objects[b].marked && heap@.objects[b].fwd_addr == if h.objects[b].marked && b
                < limit {
                Some(packed_below(h, b as int) as usize)
            } else {
                h.objects[b].fwd_addr
            } by {
                assert(cur.objects.contains_key(b));
            }
        }
        i += 1;
    }
    proof {
        let h2 = heap@;
        assert forall|b: usize| #[trigger] h.objects.contains_key(b) implies b < limit by {}
        assert forall|a: usize, b: usize|
            #![trigger h2.objects.contains_key(a), h2.objects.contains_key(b)]
            h2.objects.contains_key(a) && h2.objects.contains_key(b) && h2.objects[a].marked
                && h2.objects[b].marked && a < b implies h2.objects[a].fwd_addr->0
            + h2.objects[a].fields.len() <= h2.objects[b].fwd_addr->0 by {
            assert(h.objects.contains_key(a) && h.objects.contains_key(b));
            lemma_packed_grows(h, a + 1, b as int);
            lemma_padded(h, a);
        }
        assert forall|b: usize| #[trigger]
            h2.objects.contains_key(b) && h2.objects[b].marked implies goes_down(h2, b) by {
            assert(h.objects.contains_key(b));
        }
    }
}

/// The field after the references were updated.
pub fn forward_field(heap: &Heap, field: Field) -> (moved: Field)
    ensures
        moved == forwarded(heap@, field),
{
    match field {
        Field::Ref { addr: Address::Ptr(a) } => match heap.lookup_object_addr(a) {
            Ok(b) => {
                proof {
                    lemma_base_of(heap@, b, a);
                }
                match heap.objects.get(&b).unwrap().header.fwd_addr {
                    Some(d) => match d.checked_add(a - b) {
                        Some(target) => Field::Ref { addr: Address::Ptr(target) },
                        None => field,
                    },
                    None => field,
                }
            },
            Err(_) => {
                proof {
                    if base_of(heap@, a) is Some {
                        let b = choose|b: usize| heap@.holds(b, a);
                        assert(heap@.holds(b, a));
                    }
                }
                field
            },
        },
        _ => field,
    }
}

/// The event of the update of a field: none where the field stays as it is.
pub open spec fn field_update(h: HeapView, field: Field) -> Seq<GCEventView> {
    match (field, forwarded(h, field)) {
        (Field::Ref { addr: Address::Ptr(from) }, Field::Ref { addr: Address::Ptr(to) }) => if from
            != to {
            seq![GCEventView::UpdateFwdPtr { from, to }]
        } else {
            Seq::empty()
        },
        _ => Seq::empty(),
    }
}

/// The events of the update of the first `n` of the fields, in their order.
pub open spec fn fields_updates(h: HeapView, fields: Seq<Field>, n: int) -> Seq<GCEventView>
    decreases n,
{
    if n <= 0 {
        Seq::empty()
    } else {
        fields_updates(h, fields, n - 1) + field_update(h, fields[n - 1])
    }
}

/// The events of the update of the marked objects that start below
/// `limit`, in the order of their addresses.
pub open spec fn updates_below(h: HeapView, limit: int) -> Seq<GCEventView>
    decreases limit,
{
    if limit <= 0 {
        Seq::empty()
    } else {
        updates_below(h, limit - 1) + if h.objects.contains_key((limit - 1) as usize)
            && h.objects[(limit - 1) as usize].marked {
            fields_updates(
                h,
                h.objects[(limit - 1) as usize].fields,
                h.objects[(limit - 1) as usize].fields.len() as int,
            )
        } else {
            Seq::empty()
        }
    }
}

/// No events over a stretch without a marked object.
pub proof fn lemma_updates_gap(h: HeapView, from: int, limit: int)
    requires
        0 <= from <= limit <= usize::MAX + 1,
        forall|b: usize| #[trigger]
            h.objects.contains_key(b) && h.objects[b].marked ==> !(from <= b < limit),
    ensures
        updates_below(h, limit) == updates_below(h, from),
    decreases limit - from,
{
    if from < limit {
        lemma_updates_gap(h, from, limit - 1);
        assert(updates_below(h, limit - 1) + Seq::<GCEventView>::empty() =~= updates_below(
            h,
            limit - 1,
        ));
    }
}

/// `cur` is `h` with the references of the marked objects below `limit` updated.
pub open spec fn updating(h: HeapView, cur: HeapView, limit: int) -> bool {
    &&& cur.objects.dom() == h.objects.dom()
    &&& forall|b: usize| #[trigger]
        cur.objects.contains_key(b) ==> cur.objects[b].marked == h.objects[b].marked
            && cur.objects[b].fwd_addr == h.objects[b].fwd_addr && cur.objects[b].fields.len()
            == h.objects[b].fields.len() && forall|j: int|
            0 <= j < h.objects[b].fields.len() ==> #[trigger] cur.objects[b].fields[j]
                == if h.objects[b].marked && b < limit {
                forwarded(h, h.objects[b].fields[j])
            } else {
                h.objects[b].fields[j]
            }
    &&& cur.roots == h.roots
    &&& cur.free == h.free
    &&& cur.cells == h.cells
    &&& cur.alignment == h.alignment
}

/// `h2` is `h` with the references of the marked objects updated.
pub open spec fn references_updated(h: HeapView, h2: HeapView) -> bool {
    updating(h, h2, usize::MAX + 1)
}

/// Updating references moves no object and changes no forwarding address,
/// so a reference is updated in the same way before and afterwards.
pub proof fn lemma_updating_keeps(h: HeapView, cur: HeapView, limit: int)
    requires
        updating(h, cur, limit),
    ensures
        forall|b: usize, a: usize| cur.holds(b, a) <==> h.holds(b, a),
        forall|f: Field| forwarded(cur, f) == forwarded(h, f),
        h.shaped() ==> cur.shaped(),
        h.fits() ==> cur.fits(),
        planned(h) ==> planned(cur),
{
    assert forall|b: usize, a: usize| cur.holds(b, a) <==> h.holds(b, a) by {
        if cur.holds(b, a) {
            assert(h.objects.contains_key(b));
            assert forall|k: usize| #[trigger] h.objects.contains_key(k) && k <= a implies k
                <= b by {
                assert(cur.objects.contains_key(k));
            }
        }
        if h.holds(b, a) {
            assert(cur.objects.contains_key(b));
            assert forall|k: usize| #[trigger] cur.objects.contains_key(k) && k <= a implies k
                <= b by {
                assert(h.objects.contains_key(k));
            }
        }
    }
    assert forall|f: Field| forwarded(cur, f) == forwarded(h, f) by {
        if let Field::Ref { addr: Address::Ptr(a) } = f {
            if base_of(h, a) is Some {
                let b = choose|b: usize| h.holds(b, a);
                assert(h.holds(b, a));
                assert(cur.holds(b, a));
                lemma_base_of(cur, b, a);
                lemma_base_of(h, b, a);
                assert(cur.objects.contains_key(b));
            } else if base_of(cur, a) is Some {
                let b = choose|b: usize| cur.holds(b, a);
                assert(cur.holds(b, a));
                assert(h.holds(b, a));
            }
        }
    }
    if h.shaped() {
        assert forall|x: int| cur.in_object(x) <==> h.in_object(x) by {
            if cur.in_object(x) {
                let b = choose|b: usize| #[trigger]
                    cur.objects.contains_key(b) && b <= x < b + cur.objects[b].fields.len();
                assert(h.objects.contains_key(b) && b <= x < b + h.objects[b].fields.len());
            }
            if h.in_object(x) {
                let b = choose|b: usize| #[trigger]
                    h.objects.contains_key(b) && b <= x < b + h.objects[b].fields.len();
                assert(cur.objects.contains_key(b) && b <= x < b + cur.objects[b].fields.len());
            }
        }
        assert forall|a: usize, b: usize|
            #![trigger cur.objects.contains_key(a), cur.objects.contains_key(b)]
            cur.objects.contains_key(a) && cur.objects.contains_key(b) && a < b implies a
            + cur.objects[a].fields.len() <= b by {
            assert(h.objects.contains_key(a) && h.objects.contains_key(b));
        }
        assert forall|b: usize| #[trigger] cur.objects.contains_key(b)
            implies cur.objects[b].fields.len()
            >= 1 && b + cur.objects[b].fields.len() <= cur.size() && aligned(
            b,
            cur.alignment,
        ) by {
            assert(h.objects.contains_key(b));
        }
        assert(cur.shaped());
    }
    if h.fits() {
        assert forall|b: usize| #[trigger] cur.objects.contains_key(b) implies b
            + cur.objects[b].fields.len() <= usize::MAX by {
            assert(h.objects.contains_key(b));
        }
    }
    if planned(h) {
        assert forall|b: usize| #[trigger]
            cur.objects.contains_key(b) && cur.objects[b].marked implies goes_down(cur, b) by {
            assert(h.objects.contains_key(b));
        }
        assert forall|a: usize, b: usize|
            #![trigger cur.objects.contains_key(a), cur.objects.contains_key(b)]
            cur.objects.contains_key(a) && cur.objects.contains_key(b) && cur.objects[a].marked
                && cur.objects[b].marked && a < b implies cur.objects[a].fwd_addr->0
            + cur.objects[a].fields.len() <= cur.objects[b].fwd_addr->0 by {
            assert(h.objects.contains_key(a) && h.objects.contains_key(b));
        }
    }
}

/// The second pass: every reference of a marked object into an object
/// with a forwarding address is made to refer to the same field at the
/// new place. References to null, and to addresses in no object or in an
/// object without a forwarding address, stay.
pub fn update_references(heap: &mut Heap, eventlog: &mut Vec<GCEvent>)
    ensures
        references_updated(old(heap)@, final(heap)@),
        old(eventlog)@.len() < final(eventlog)@.len(),
        forall|i: int| 0 <= i < old(eventlog)@.len() ==> final(eventlog)@[i] == old(eventlog)@[i],
        log_of(final(eventlog)@) == log_of(old(eventlog)@).push(phase("update_references"@))
            + updates_below(old(heap)@, usize::MAX + 1),
{
    let ghost log0 = eventlog@;
    let announce = GCEvent::phase("update_references".to_owned());
    proof {
        lemma_log_push(eventlog@, announce);
    }
    eventlog.push(announce);
    let ghost head = log_of(log0).push(phase("update_references"@));
    proof {
        assert(head + Seq::<GCEventView>::empty() =~= head);
    }
    let ghost h = heap@;
    let keys = sorted_keys(&heap.objects);
    let n = keys.len();
    let ghost mut limit: int = 0;
    let mut i: usize = 0;
    while i < n
        invariant
            i <= n,
            n == keys.len(),
            lists(keys@, h.objects.dom()),
            0 <= limit <= usize::MAX + 1,
            i < n ==> limit <= keys@[i as int],
            forall|b: usize| #[trigger]
                h.objects.contains_key(b) && b >= limit ==> i < n && b >= keys@[i as int],
            updating(h, heap@, limit),
            log0.len() < eventlog@.len(),
            forall|t: int| 0 <= t < log0.len() ==> eventlog@[t] == log0[t],
            head == log_of(log0).push(phase("update_references"@)),
            log_of(eventlog@) == head + updates_below(h, limit),
        decreases n - i,
    {
        let k = keys[i];
        let ghost cur = heap@;
        proof {
            assert(keys@.contains(keys@[i as int]));
            assert(h.objects.contains_key(k) && cur.objects.contains_key(k));
            lemma_updating_keeps(h, cur, limit);
            lemma_updates_gap(h, limit, k as int);
        }
        let ghost sofar = updates_below(h, k as int);
        let object = heap.objects.get(&k).unwrap();
        if object.header.marked {
            let mut fields: Vec<Field> = Vec::new();
            let mut j: usize = 0;
            while j < object.fields.len()
                invariant
                    j <= object.fields.len(),
                    cur == heap@,
                    object@ == cur.objects[k],
                    fields@.len() == j,
                    forall|f: Field| forwarded(cur, f) == forwarded(h, f),
                    forall|t: int|
                        0 <= t < j ==> #[trigger] fields@[t] == forwarded(h, object@.fields[t]),
                    log0.len() < eventlog@.len(),
                    forall|t: int| 0 <= t < log0.len() ==> eventlog@[t] == log0[t],
                    log_of(eventlog@) == head + (sofar + fields_updates(
                        h,
                        object@.fields,
                        j as int,
                    )),
                decreases object.fields.len() - j,
            {
                let field = object.fields[j];
                let updated = forward_field(heap, field);
                let ghost log = eventlog@;
                let ghost done = fields_updates(h, object@.fields, j as int);
                match (field, updated) {
                    (
                        Field::Ref { addr: Address::Ptr(from) },
                        Field::Ref { addr: Address::Ptr(to) },
                    ) => {
                        if from != to {
                            let event = GCEvent::UpdateFwdPtr { from, to };
                            proof {
                                lemma_log_push(log, event);
                                assert((head + (sofar + done)).push(event@) =~= head + (sofar + (
                                done + seq![event@])));
                            }
                            eventlog.push(event);
                        } else {
                            proof {
                                assert(done + Seq::<GCEventView>::empty() =~= done);
                            }
                        }
                    },
                    _ => {
                        proof {
                            assert(done + Seq::<GCEventView>::empty() =~= done);
                        }
                    },
                }
                fields.push(updated);
                j += 1;
            }
            proof {
                assert(head + (sofar + fields_updates(h, object@.fields, j as int)) =~= (head
                    + sofar) + fields_updates(h, object@.fields, j as int));
                assert(object@.fields == h.objects[k].fields);
            }
            let ghost raw = heap.objects@;
            let mut taken = heap.objects.remove(&k).unwrap();
            taken.fields = fields;
            heap.objects.insert(k, taken);
            proof {
                lemma_views_remove(raw, k);
                lemma_views_insert(raw.remove(k), k, taken);
                assert(heap@.objects.dom() =~= h.objects.dom());
                assert(heap@.objects =~= cur.objects.insert(k, taken@));
            }
        } else {
            proof {
                assert(sofar + Seq::<GCEventView>::empty() =~= sofar);
            }
        }
        proof {
            limit = k + 1;
            assert(log_of(eventlog@) == head + updates_below(h, limit)) by {
                assert(head + (sofar + fields_updates(
                    h,
                    h.objects[k].fields,
                    h.objects[k].fields.len() as int,
                )) =~= (head + sofar) + fields_updates(
                    h,
                    h.objects[k].fields,
                    h.objects[k].fields.len() as int,
                ));
            }
            assert forall|b: usize| #[trigger]
                h.objects.contains_key(b) && b >= limit implies i + 1 < n && b >= keys@[i
                + 1] by {
                assert(keys@.contains(b));
                let j = choose|j: int| 0 <= j < keys@.len() && keys@[j] == b;
                if j <= i {
                    assert(keys@[j] <= keys@[i as int]);
                }
                if j > i + 1 {
                    assert(keys@[i + 1] < keys@[j]);
                }
            }
            if i + 1 < n {
                assert(keys@[i as int] < keys@[i + 1]);
            }
            assert forall|b: usize| #[trigger] heap@.objects.contains_key(b)
                implies heap@.objects[b].marked
                == h.objects[b].marked && heap@.objects[b].fwd_addr == h.objects[b].fwd_addr
                && heap@.objects[b].fields.len() == h.objects[b].fields.len() && forall|j: int|
                0 <= j < h.objects[b].fields.len() ==> #[trigger] heap@.objects[b].fields[j]
                    == if h.objects[b].marked && b < limit {
                    forwarded(h, h.objects[b].fields[j])
                } else {
                    h.objects[b].fields[j]
                } by {
                assert(cur.objects.contains_key(b));
            }
        }
        i += 1;
    }
    proof {
        lemma_updates_gap(h, limit, usize::MAX + 1);
        let h2 = heap@;
        assert forall|b: usize| #[trigger] h2.objects.contains_key(b) implies h2.objects[b].marked
            == h.objects[b].marked && h2.objects[b].fwd_addr == h.objects[b].fwd_addr
            && h2.objects[b].fields.len() == h.objects[b].fields.len() && forall|j: int|
            0 <= j < h.objects[b].fields.len() ==> #[trigger] h2.objects[b].fields[j]
                == if h.objects[b].marked && b < usize::MAX + 1 {
                forwarded(h, h.objects[b].fields[j])
            } else {
                h.objects[b].fields[j]
            } by {
            assert(h.objects.contains_key(b));
        }
    }
}

/// The marked object at `b`, below `limit`, has the forwarding address `d`.
pub open spec fn goes(h: HeapView, b: usize, limit: int, d: usize) -> bool {
    h.objects.contains_key(b) && h.objects[b].marked && b < limit && h.objects[b].fwd_addr == Some(
        d,
    )
}

/// A marked object below `limit` has the forwarding address `d`.
pub open spec fn lands(h: HeapView, limit: int, d: usize) -> bool {
    exists|b: usize| #[trigger] goes(h, b, limit, d)
}

/// A marked root below `limit` has the forwarding address `d`.
pub open spec fn root_lands(h: HeapView, limit: int, d: usize) -> bool {
    exists|b: usize| #[trigger] goes(h, b, limit, d) && h.roots.contains(b)
}

/// `cur` is `h` after the third pass has dealt with the objects that
/// start below `limit`: the marked ones lie at their forwarding addresses
/// with a clean header, the unmarked ones are freed.
pub open spec fn sliding(h: HeapView, cur: HeapView, limit: int) -> bool {
    &&& forall|d: usize|
        #![trigger cur.objects.contains_key(d)]
        cur.objects.contains_key(d) <==> lands(h, limit, d) || (h.objects.contains_key(d) && d
            >= limit)
    &&& forall|b: usize, d: usize| #[trigger]
        goes(h, b, limit, d) ==> cur.objects[d] == h.objects[b].clean()
    &&& forall|d: usize| #[trigger]
        h.objects.contains_key(d) && d >= limit ==> cur.objects[d] == h.objects[d]
    &&& forall|r: usize|
        #![trigger cur.roots.contains(r)]
        cur.roots.contains(r) <==> root_lands(h, limit, r) || (h.roots.contains(r) && r >= limit)
    &&& cur.cells == h.cells
    &&& cur.alignment == h.alignment
}

proof fn lemma_sliding_gap(h: HeapView, cur: HeapView, from: int, limit: int)
    requires
        sliding(h, cur, from),
        h.shaped(),
        from <= limit,
        forall|b: usize| #[trigger] h.objects.contains_key(b) ==> !(from <= b < limit),
    ensures
        sliding(h, cur, limit),
{
    assert forall|b: usize, d: usize| goes(h, b, limit, d) <==> goes(h, b, from, d) by {}
    assert forall|d: usize| lands(h, limit, d) <==> lands(h, from, d) by {
        if lands(h, limit, d) {
            let b = choose|b: usize| #[trigger] goes(h, b, limit, d);
            assert(goes(h, b, from, d));
        }
        if lands(h, from, d) {
            let b = choose|b: usize| #[trigger] goes(h, b, from, d);
            assert(goes(h, b, limit, d));
        }
    }
    assert forall|d: usize| root_lands(h, limit, d) <==> root_lands(h, from, d) by {
        if root_lands(h, limit, d) {
            let b = choose|b: usize| #[trigger] goes(h, b, limit, d) && h.roots.contains(b);
            assert(goes(h, b, from, d));
        }
        if root_lands(h, from, d) {
            let b = choose|b: usize| #[trigger] goes(h, b, from, d) && h.roots.contains(b);
            assert(goes(h, b, limit, d));
        }
    }
    assert forall|b: usize, d: usize| #[trigger] goes(h, b, limit, d) implies cur.objects[d]
        == h.objects[b].clean() by {
        assert(goes(h, b, from, d));
    }
    assert forall|r: usize|
        cur.roots.contains(r) <==> root_lands(h, limit, r) || (h.roots.contains(r) && r
            >= limit) by {
        if h.roots.contains(r) && r >= from {
            assert(h.objects.contains_key(r));
        }
    }
}

/// The cells at the forwarding address of the next marked object are free, or its own.
proof fn lemma_slide_room(h: HeapView, cur: HeapView, k: usize)
    requires
        sliding(h, cur, k as int),
        h.shaped(),
        cur.shaped(),
        planned(h),
        h.objects.contains_key(k),
        h.objects[k].marked,
    ensures
        cur.objects.contains_key(k),
        cur.objects[k] == h.objects[k],
        cur.room_at(k, h.objects[k].fwd_addr->0),
        h.objects[k].fwd_addr->0 != k ==> !cur.objects.contains_key(h.objects[k].fwd_addr->0),
{
    let d = h.objects[k].fwd_addr->0;
    let len = h.objects[k].fields.len();
    assert(goes_down(h, k));
    assert forall|c: usize| #[trigger] cur.objects.contains_key(c) && c != k implies c
        + cur.objects[c].fields.len() <= d || c > k by {
        if lands(h, k as int, c) {
            let a = choose|a: usize| #[trigger] goes(h, a, k as int, c);
            assert(h.objects.contains_key(a) && h.objects.contains_key(k));
            assert(cur.objects[c] == h.objects[a].clean());
        }
    }
    assert forall|x: int| d <= x < d + len implies crate::free_list::run_covers(cur.free, x)
        || crate::heap::in_span(cur, k, x) by {
        if x < k {
            if cur.in_object(x) {
                let c = choose|c: usize| #[trigger]
                    cur.objects.contains_key(c) && c <= x < c + cur.objects[c].fields.len();
                assert(cur.objects.contains_key(c) && c != k);
            }
            assert(cur.objects.contains_key(k));
            assert(k + cur.objects[k].fields.len() <= cur.size());
        }
    }
    if d != k && cur.objects.contains_key(d) {
        assert(cur.objects.contains_key(d) && d != k);
        assert(cur.objects[d].fields.len() >= 1);
    }
}

proof fn lemma_slide_moved(h: HeapView, cur: HeapView, next: HeapView, k: usize)
    requires
        sliding(h, cur, k as int),
        h.shaped(),
        cur.shaped(),
        planned(h),
        h.objects.contains_key(k),
        h.objects[k].marked,
        next.objects == cur.objects.remove(k).insert(
            h.objects[k].fwd_addr->0,
            h.objects[k].clean(),
        ),
        next.roots == if cur.roots.contains(k) {
            cur.roots.remove(k).insert(h.objects[k].fwd_addr->0)
        } else {
            cur.roots
        },
        next.cells == cur.cells,
        next.alignment == cur.alignment,
    ensures
        sliding(h, next, k + 1),
{
    let d = h.objects[k].fwd_addr->0;
    lemma_slide_room(h, cur, k);
    assert(goes_down(h, k));
    assert(goes(h, k, k + 1, d));
    assert forall|b: usize, e: usize| goes(h, b, k + 1, e) <==> goes(h, b, k as int, e) || (b == k
        && e == d) by {}
    assert forall|e: usize| lands(h, k + 1, e) <==> lands(h, k as int, e) || e == d by {
        if lands(h, k + 1, e) {
            let b = choose|b: usize| #[trigger] goes(h, b, k + 1, e);
            if b != k {
                assert(goes(h, b, k as int, e));
            }
        }
        if lands(h, k as int, e) {
            let b = choose|b: usize| #[trigger] goes(h, b, k as int, e);
            assert(goes(h, b, k + 1, e));
        }
    }
    assert forall|e: usize|
        root_lands(h, k + 1, e) <==> root_lands(h, k as int, e) || (e == d && h.roots.contains(
            k,
        )) by {
        if root_lands(h, k + 1, e) {
            let b = choose|b: usize| #[trigger] goes(h, b, k + 1, e) && h.roots.contains(b);
            if b != k {
                assert(goes(h, b, k as int, e));
            }
        }
        if root_lands(h, k as int, e) {
            let b = choose|b: usize| #[trigger] goes(h, b, k as int, e) && h.roots.contains(b);
            assert(goes(h, b, k + 1, e));
        }
    }
    // no other object was to land at the new place
    assert forall|a: usize| #[trigger] goes(h, a, k as int, d) implies false by {
        assert(h.objects.contains_key(a) && h.objects.contains_key(k));
        assert(h.objects[a].fields.len() >= 1);
    }
    assert forall|e: usize|
        next.objects.contains_key(e) <==> lands(h, k + 1, e) || (h.objects.contains_key(e) && e
            >= k + 1) by {
        if lands(h, k as int, e) {
            let a = choose|a: usize| #[trigger] goes(h, a, k as int, e);
            assert(goes_down(h, a));
        }
    }
    assert forall|b: usize, e: usize| #[trigger] goes(h, b, k + 1, e) implies next.objects[e]
        == h.objects[b].clean() by {
        if b != k {
            assert(goes(h, b, k as int, e));
            assert(goes_down(h, b));
            assert(lands(h, k as int, e));
        }
    }
    assert forall|r: usize|
        next.roots.contains(r) <==> root_lands(h, k + 1, r) || (h.roots.contains(r) && r >= k
            + 1) by {
        assert(cur.roots.contains(k) <==> h.roots.contains(k)) by {
            if root_lands(h, k as int, k) {
                let a = choose|a: usize| #[trigger] goes(h, a, k as int, k) && h.roots.contains(a);
                assert(goes_down(h, a));
                assert(h.objects.contains_key(a) && h.objects.contains_key(k));
                assert(h.objects[a].fields.len() >= 1);
            }
        }
        if root_lands(h, k as int, r) {
            let a = choose|a: usize| #[trigger] goes(h, a, k as int, r) && h.roots.contains(a);
            assert(goes_down(h, a));
        }
        if r == d && d != k && cur.roots.contains(d) {
            assert(cur.objects.contains_key(d));
        }
    }
}

proof fn lemma_slide_freed(h: HeapView, cur: HeapView, next: HeapView, k: usize)
    requires
        sliding(h, cur, k as int),
        h.shaped(),
        planned(h),
        h.objects.contains_key(k),
        !h.objects[k].marked,
        next.objects == cur.objects.remove(k),
        next.roots == cur.roots.remove(k),
        next.cells == cur.cells,
        next.alignment == cur.alignment,
    ensures
        sliding(h, next, k + 1),
{
    assert forall|b: usize, e: usize| goes(h, b, k + 1, e) <==> goes(h, b, k as int, e) by {}
    assert forall|e: usize| lands(h, k + 1, e) <==> lands(h, k as int, e) by {
        if lands(h, k + 1, e) {
            let b = choose|b: usize| #[trigger] goes(h, b, k + 1, e);
            assert(goes(h, b, k as int, e));
        }
        if lands(h, k as int, e) {
            let b = choose|b: usize| #[trigger] goes(h, b, k as int, e);
            assert(goes(h, b, k + 1, e));
        }
    }
    assert forall|e: usize| root_lands(h, k + 1, e) <==> root_lands(h, k as int, e) by {
        if root_lands(h, k + 1, e) {
            let b = choose|b: usize| #[trigger] goes(h, b, k + 1, e) && h.roots.contains(b);
            assert(goes(h, b, k as int, e));
        }
        if root_lands(h, k as int, e) {
            let b = choose|b: usize| #[trigger] goes(h, b, k as int, e) && h.roots.contains(b);
            assert(goes(h, b, k + 1, e));
        }
    }
    assert forall|a: usize| #[trigger] goes(h, a, k as int, k) implies false by {
        assert(goes_down(h, a));
    }
    assert forall|e: usize|
        next.objects.contains_key(e) <==> lands(h, k + 1, e) || (h.objects.contains_key(e) && e
            >= k + 1) by {
        if lands(h, k as int, e) {
            let a = choose|a: usize| #[trigger] goes(h, a, k as int, e);
            assert(goes_down(h, a));
        }
    }
    assert forall|b: usize, e: usize| #[trigger] goes(h, b, k + 1, e) implies next.objects[e]
        == h.objects[b].clean() by {
        assert(goes(h, b, k as int, e));
        assert(goes_down(h, b));
    }
    assert forall|r: usize|
        next.roots.contains(r) <==> root_lands(h, k + 1, r) || (h.roots.contains(r) && r >= k
            + 1) by {
        if root_lands(h, k as int, r) {
            let a = choose|a: usize| #[trigger] goes(h, a, k as int, r) && h.roots.contains(a);
            assert(goes_down(h, a));
        }
    }
}

/// The event of the third pass for the object at `b`: it is freed where
/// it is unmarked, moved where its forwarding address is another place
/// than its own, and left where it is else.
pub open spec fn slide_event(h: HeapView, b: usize) -> Seq<GCEventView> {
    if !h.objects.contains_key(b) {
        Seq::empty()
    } else if !h.objects[b].marked {
        seq![GCEventView::FreeObject { addr: b, size: h.objects[b].fields.len() as usize }]
    } else if h.objects[b].fwd_addr is Some && h.objects[b].fwd_addr->0 != b {
        seq![
            GCEventView::MoveObject {
                from: b,
                to: h.objects[b].fwd_addr->0,
                size: h.objects[b].fields.len() as usize,
            },
        ]
    } else {
        Seq::empty()
    }
}

/// The events of the third pass for the objects that start below
/// `limit`, in the order of their addresses.
pub open spec fn slide_events(h: HeapView, limit: int) -> Seq<GCEventView>
    decreases limit,
{
    if limit <= 0 {
        Seq::empty()
    } else {
        slide_events(h, limit - 1) + slide_event(h, (limit - 1) as usize)
    }
}

/// No events over a stretch without an object.
pub proof fn lemma_slide_events_gap(h: HeapView, from: int, limit: int)
    requires
        0 <= from <= limit <= usize::MAX + 1,
        forall|b: usize| #[trigger] h.objects.contains_key(b) ==> !(from <= b < limit),
    ensures
        slide_events(h, limit) == slide_events(h, from),
    decreases limit - from,
{
    if from < limit {
        lemma_slide_events_gap(h, from, limit - 1);
        assert(slide_events(h, limit - 1) + Seq::<GCEventView>::empty() =~= slide_events(
            h,
            limit - 1,
        ));
    }
}

/// The third pass: in the order of the addresses, every unmarked object
/// is freed and every marked object is moved to its forwarding address,
/// where it loses its mark and its forwarding address.
pub fn relocate(heap: &mut Heap, eventlog: &mut Vec<GCEvent>)
    requires
        old(heap)@.shaped(),
        planned(old(heap)@),
    ensures
        sliding(old(heap)@, final(heap)@, usize::MAX + 1),
        final(heap)@.shaped(),
        old(eventlog)@.len() < final(eventlog)@.len(),
        forall|i: int| 0 <= i < old(eventlog)@.len() ==> final(eventlog)@[i] == old(eventlog)@[i],
        log_of(final(eventlog)@) == log_of(old(eventlog)@).push(phase("relocate"@)) + slide_events(
            old(heap)@,
            usize::MAX + 1,
        ),
{
    let ghost log0 = eventlog@;
    let announce = GCEvent::phase("relocate".to_owned());
    proof {
        lemma_log_push(eventlog@, announce);
    }
    eventlog.push(announce);
    let ghost head = log_of(log0).push(phase("relocate"@));
    proof {
        assert(head + Seq::<GCEventView>::empty() =~= head);
    }
    let ghost h = heap@;
    let keys = sorted_keys(&heap.objects);
    let n = keys.len();
    let ghost mut limit: int = 0;
    let mut i: usize = 0;
    proof {
        assert forall|d: usize| !lands(h, 0, d) by {
            if lands(h, 0, d) {
                let b = choose|b: usize| #[trigger] goes(h, b, 0, d);
            }
        }
        assert forall|d: usize| !root_lands(h, 0, d) by {
            if root_lands(h, 0, d) {
                let b = choose|b: usize| #[trigger] goes(h, b, 0, d) && h.roots.contains(b);
            }
        }
    }
    while i < n
        invariant
            i <= n,
            n == keys.len(),
            h.shaped(),
            planned(h),
            lists(keys@, h.objects.dom()),
            0 <= limit <= usize::MAX + 1,
            i < n ==> limit <= keys@[i as int],
            forall|b: usize| #[trigger]
                h.objects.contains_key(b) && b >= limit ==> i < n && b >= keys@[i as int],
            sliding(h, heap@, limit),
            heap@.shaped(),
            log0.len() < eventlog@.len(),
            forall|t: int| 0 <= t < log0.len() ==> eventlog@[t] == log0[t],
            head == log_of(log0).push(phase("relocate"@)),
            log_of(eventlog@) == head + slide_events(h, limit),
        decreases n - i,
    {
        let k = keys[i];
        let ghost cur = heap@;
        let ghost log = eventlog@;
        let ghost sofar = slide_events(h, k as int);
        proof {
            assert(keys@.contains(keys@[i as int]));
            assert(h.objects.contains_key(k));
            lemma_slide_events_gap(h, limit, k as int);
            lemma_sliding_gap(h, cur, limit, k as int);
            crate::heap::lemma_shaped_fits(cur);
            assert(cur.objects.contains_key(k));
            assert(cur.objects[k] == h.objects[k]);
        }
        let object = heap.objects.get(&k).unwrap();
        let size = object.size();
        if object.header.marked {
            proof {
                lemma_slide_room(h, cur, k);
                assert(goes_down(h, k));
            }
            let dest = match object.header.fwd_addr {
                Some(dest) => dest,
                None => k,
            };
            if dest != k {
                let moved = crate::gc::common::move_object(heap, eventlog, k, dest);
                assert(moved);
                proof {
                    let event = eventlog@[log.len() as int];
                    assert(eventlog@ == log.push(event));
                    lemma_log_push(log, event);
                    assert((head + sofar).push(event@) =~= head + (sofar + seq![event@]));
                }
            } else {
                proof {
                    assert(sofar + Seq::<GCEventView>::empty() =~= sofar);
                }
            }
            let ghost mid = heap@;
            set_header(heap, dest, ObjHeader { marked: false, fwd_addr: None });
            proof {
                lemma_headers_keep_layout(mid, heap@);
                assert(heap@.objects =~= cur.objects.remove(k).insert(dest, h.objects[k].clean()));
                lemma_slide_moved(h, cur, heap@, k);
            }
        } else {
            let freed = heap.free_object(k);
            let event = GCEvent::FreeObject { addr: k, size };
            proof {
                lemma_log_push(log, event);
                assert((head + sofar).push(event@) =~= head + (sofar + seq![event@]));
            }
            eventlog.push(event);
            proof {
                assert(freed is Ok);
                lemma_slide_freed(h, cur, heap@, k);
            }
        }
        proof {
            limit = k + 1;
            assert forall|b: usize| #[trigger]
                h.objects.contains_key(b) && b >= limit implies i + 1 < n && b >= keys@[i
                + 1] by {
                assert(keys@.contains(b));
                let j = choose|j: int| 0 <= j < keys@.len() && keys@[j] == b;
                if j <= i {
                    assert(keys@[j] <= keys@[i as int]);
                }
                if j > i + 1 {
                    assert(keys@[i + 1] < keys@[j]);
                }
            }
            if i + 1 < n {
                assert(keys@[i as int] < keys@[i + 1]);
            }
        }
        i += 1;
    }
    proof {
        lemma_sliding_gap(h, heap@, limit, usize::MAX + 1);
        lemma_slide_events_gap(h, limit, usize::MAX + 1);
    }
}

/// The field after a compaction of `h`: a reference into a marked object
/// refers to the same field at the place where that object goes; any
/// other field stays.
pub open spec fn slid(h: HeapView, field: Field) -> Field {
    match field {
        Field::Ref { addr: Address::Ptr(a) } => match base_of(h, a) {
            Some(b) => if h.objects[b].marked {
                Field::Ref { addr: Address::Ptr((packed_below(h, b as int) + (a - b)) as usize) }
            } else {
                field
            },
            None => field,
        },
        _ => field,
    }
}

/// The marked object at `b` goes to `d` when the marked objects are packed.
pub open spec fn settles(h: HeapView, b: usize, d: usize) -> bool {
    h.objects.contains_key(b) && h.objects[b].marked && packed_below(h, b as int) == d
}

/// A marked object goes to `d`.
pub open spec fn settled(h: HeapView, d: usize) -> bool {
    exists|b: usize| #[trigger] settles(h, b, d)
}

/// A marked root goes to `d`.
pub open spec fn root_settled(h: HeapView, d: usize) -> bool {
    exists|b: usize| #[trigger] settles(h, b, d) && h.roots.contains(b)
}

/// `after` is `h` compacted: the marked objects lie packed from address
/// 0 on, in their old order, each at an aligned address, with a clean
/// header and with its references updated; the unmarked objects are
/// gone; a root has followed its object; the layout is sound, so that
/// all other cells are free.
pub open spec fn compacted(h: HeapView, after: HeapView) -> bool {
    &&& forall|d: usize|
        #![trigger after.objects.contains_key(d)]
        after.objects.contains_key(d) <==> settled(h, d)
    &&& forall|b: usize, d: usize| #[trigger]
        settles(h, b, d) ==> !after.objects[d].marked && after.objects[d].fwd_addr is None
            && after.objects[d].fields.len() == h.objects[b].fields.len() && forall|j: int|
            0 <= j < h.objects[b].fields.len() ==> #[trigger] after.objects[d].fields[j] == slid(
                h,
                h.objects[b].fields[j],
            )
    &&& forall|r: usize|
        #![trigger after.roots.contains(r)]
        after.roots.contains(r) <==> root_settled(h, r)
    &&& after.cells == h.cells
    &&& after.alignment == h.alignment
    &&& after.wf()
}

/// The heap after the first pass: every marked object has its
/// forwarding address.
pub open spec fn planned_heap(h: HeapView) -> HeapView {
    HeapView {
        objects: Map::new(
            |b: usize| h.objects.contains_key(b),
            |b: usize|
                if h.objects[b].marked {
                    ObjectView {
                        fwd_addr: Some(packed_below(h, b as int) as usize),
                        ..h.objects[b]
                    }
                } else {
                    h.objects[b]
                },
        ),
        ..h
    }
}

/// The heap after the second pass: the references of the marked objects
/// are updated.
pub open spec fn updated_heap(h: HeapView) -> HeapView {
    HeapView {
        objects: Map::new(
            |b: usize| h.objects.contains_key(b),
            |b: usize|
                if h.objects[b].marked {
                    ObjectView {
                        fields: Seq::new(
                            h.objects[b].fields.len(),
                            |j: int| forwarded(h, h.objects[b].fields[j]),
                        ),
                        ..h.objects[b]
                    }
                } else {
                    h.objects[b]
                },
        ),
        ..h
    }
}

/// The log of a compaction by sliding of the heap `h`: each pass is
/// announced; the second pass logs the references that change, the third
/// pass the objects that are freed and moved; all in the order of the
/// addresses.
pub open spec fn slide_log(h: HeapView) -> Seq<GCEventView> {
    seq![phase("compute_locations"@), phase("update_references"@)] + updates_below(
        planned_heap(h),
        usize::MAX + 1,
    ) + seq![phase("relocate"@)] + slide_events(updated_heap(planned_heap(h)), usize::MAX + 1)
}

/// The three passes make a compaction.
pub proof fn lemma_compacted(h: HeapView, h1: HeapView, h2: HeapView, h3: HeapView)
    requires
        h.shaped(),
        forall|b: usize| #[trigger] h.objects.contains_key(b) ==> h.objects[b].fwd_addr is None,
        same_but_headers(h, h1),
        forall|b: usize| #[trigger]
            h1.objects.contains_key(b) ==> h1.objects[b].marked == h.objects[b].marked
                && h1.objects[b].fwd_addr == if h.objects[b].marked {
                Some(packed_below(h, b as int) as usize)
            } else {
                h.objects[b].fwd_addr
            },
        forall|b: usize| #[trigger]
            h.objects.contains_key(b) && h.objects[b].marked ==> 0 <= packed_below(h, b as int)
                <= b,
        references_updated(h1, h2),
        sliding(h2, h3, usize::MAX + 1),
        h3.shaped(),
    ensures
        compacted(h, h3),
{
    lemma_headers_keep_layout(h, h1);
    assert(h1.objects.dom() =~= h.objects.dom());
    assert(h2.objects.dom() =~= h.objects.dom());
    assert forall|b: usize, d: usize| goes(h2, b, usize::MAX + 1, d) <==> settles(h, b, d) by {
        if h.objects.contains_key(b) {
            assert(h1.objects.contains_key(b) && h2.objects.contains_key(b));
        }
    }
    assert forall|d: usize| lands(h2, usize::MAX + 1, d) <==> settled(h, d) by {
        if lands(h2, usize::MAX + 1, d) {
            let b = choose|b: usize| #[trigger] goes(h2, b, usize::MAX + 1, d);
            assert(settles(h, b, d));
        }
        if settled(h, d) {
            let b = choose|b: usize| #[trigger] settles(h, b, d);
            assert(goes(h2, b, usize::MAX + 1, d));
        }
    }
    assert forall|d: usize| root_lands(h2, usize::MAX + 1, d) <==> root_settled(h, d) by {
        if root_lands(h2, usize::MAX + 1, d) {
            let b = choose|b: usize| #[trigger]
                goes(h2, b, usize::MAX + 1, d) && h2.roots.contains(b);
            assert(settles(h, b, d));
        }
        if root_settled(h, d) {
            let b = choose|b: usize| #[trigger] settles(h, b, d) && h.roots.contains(b);
            assert(goes(h2, b, usize::MAX + 1, d));
        }
    }
    assert forall|f: Field| forwarded(h1, f) == slid(h, f) by {
        if let Field::Ref { addr: Address::Ptr(a) } = f {
            if base_of(h, a) is Some {
                let b = choose|b: usize| h.holds(b, a);
                assert(h.holds(b, a));
                assert(h1.holds(b, a));
                lemma_base_of(h1, b, a);
                lemma_base_of(h, b, a);
                assert(h1.objects.contains_key(b));
            } else if base_of(h1, a) is Some {
                let b = choose|b: usize| h1.holds(b, a);
                assert(h1.holds(b, a));
                assert(h.holds(b, a));
            }
        }
    }
    assert forall|b: usize, d: usize| #[trigger] settles(h, b, d) implies !h3.objects[d].marked
        && h3.objects[d].fwd_addr is None && h3.objects[d].fields.len()
        == h.objects[b].fields.len() && forall|j: int|
        0 <= j < h.objects[b].fields.len() ==> #[trigger] h3.objects[d].fields[j] == slid(
            h,
            h.objects[b].fields[j],
        ) by {
        assert(goes(h2, b, usize::MAX + 1, d));
        assert(h3.objects[d] == h2.objects[b].clean());
        assert(h1.objects.contains_key(b) && h2.objects.contains_key(b));
        assert forall|j: int| 0 <= j < h.objects[b].fields.len()
            implies #[trigger] h3.objects[d].fields[j]
            == slid(h, h.objects[b].fields[j]) by {
            assert(h2.objects[b].fields[j] == forwarded(h1, h1.objects[b].fields[j]));
        }
    }
    assert forall|d: usize| #[trigger] h3.objects.contains_key(d) implies !h3.objects[d].marked
        && h3.objects[d].fwd_addr is None by {
        assert(lands(h2, usize::MAX + 1, d));
        let b = choose|b: usize| #[trigger] goes(h2, b, usize::MAX + 1, d);
        assert(h3.objects[d] == h2.objects[b].clean());
    }
}

/// Compacts the heap by sliding: the marked objects are packed from
/// address 0 on, in their old order, and the references to them are
/// updated; the unmarked objects are freed.
pub fn compact(heap: &mut Heap, eventlog: &mut Vec<GCEvent>)
    requires
        old(heap)@.shaped(),
        forall|b: usize| #[trigger]
            old(heap)@.objects.contains_key(b) ==> old(heap)@.objects[b].fwd_addr is None,
    ensures
        compacted(old(heap)@, final(heap)@),
        old(eventlog)@.len() <= final(eventlog)@.len(),
        forall|i: int| 0 <= i < old(eventlog)@.len() ==> final(eventlog)@[i] == old(eventlog)@[i],
        log_of(final(eventlog)@) == log_of(old(eventlog)@) + slide_log(old(heap)@),
{
    let ghost h = heap@;
    let ghost log0 = log_of(eventlog@);
    compute_locations(heap, eventlog);
    let ghost h1 = heap@;
    proof {
        assert(h1.objects =~= planned_heap(h).objects);
        assert(h1 == planned_heap(h));
    }
    proof {
        lemma_headers_keep_layout(h, h1);
    }
    update_references(heap, eventlog);
    let ghost h2 = heap@;
    proof {
        lemma_updating_keeps(h1, h2, usize::MAX + 1);
        assert forall|b: usize| #[trigger] h2.objects.contains_key(b) implies h2.objects[b]
            == updated_heap(h1).objects[b] by {
            assert(h1.objects.contains_key(b));
            assert(h2.objects[b].fields =~= updated_heap(h1).objects[b].fields);
        }
        assert(h2.objects =~= updated_heap(h1).objects);
        assert(h2 == updated_heap(h1));
    }
    relocate(heap, eventlog);
    proof {
        lemma_compacted(h, h1, h2, heap@);
        let a = phase("compute_locations"@);
        let b = phase("update_references"@);
        let c = phase("relocate"@);
        let u = updates_below(h1, usize::MAX + 1);
        let v = slide_events(h2, usize::MAX + 1);
        assert((log0.push(a).push(b) + u).push(c) + v =~= log0 + (seq![a, b] + u + seq![c] + v));
    }
}

} // verus!
