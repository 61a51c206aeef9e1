use crate::gc::GCEvent;
use crate::heap::aligned;
use crate::heap::lemma_views_insert;
use crate::heap::lemma_views_remove;
use crate::heap::Heap;
use crate::heap::HeapView;
use crate::object::ObjAddr;
use crate::object::ObjHeader;
use crate::object::ObjectView;
use vstd::prelude::*;

verus! {

/// The heap with the header of the object at `addr` replaced.
pub open spec fn with_header(h: HeapView, addr: usize, header: ObjHeader) -> HeapView {
    if h.objects.contains_key(addr) {
        HeapView {
            objects: h.objects.insert(
                addr,
                ObjectView {
                    marked: header.marked,
                    fwd_addr: header.fwd_addr,
                    fields: h.objects[addr].fields,
                },
            ),
            ..h
        }
    } else {
        h
    }
}

/// `h` and `h2` differ in the headers of their objects at most.
pub open spec fn same_but_headers(h: HeapView, h2: HeapView) -> bool {
    &&& h2.objects.dom() == h.objects.dom()
    &&& forall|b: usize| #[trigger]
        h2.objects.contains_key(b) ==> h2.objects[b].fields == h.objects[b].fields
    &&& h2.roots == h.roots
    &&& h2.free == h.free
    &&& h2.cells == h.cells
    &&& h2.alignment == h.alignment
}

/// The headers do not matter to the layout, nor to which addresses an object holds.
pub proof fn lemma_headers_keep_layout(h: HeapView, h2: HeapView)
    requires
        same_but_headers(h, h2),
    ensures
        h.shaped() ==> h2.shaped(),
        h.fits() ==> h2.fits(),
        forall|x: int| h2.in_object(x) <==> h.in_object(x),
        forall|b: usize, a: usize| h2.holds(b, a) <==> h.holds(b, a),
{
    assert forall|x: int| h2.in_object(x) <==> h.in_object(x) by {
        if h2.in_object(x) {
            let b = choose|b: usize| #[trigger]
                h2.objects.contains_key(b) && b <= x < b + h2.objects[b].fields.len();
            assert(h.objects.contains_key(b) && b <= x < b + h.objects[b].fields.len());
        }
        if h.in_object(x) {
            let b = choose|b: usize| #[trigger]
                h.objects.contains_key(b) && b <= x < b + h.objects[b].fields.len();
            assert(h2.objects.contains_key(b) && b <= x < b + h2.objects[b].fields.len());
        }
    }
    assert forall|b: usize, a: usize| h2.holds(b, a) <==> h.holds(b, a) by {
        if h2.holds(b, a) {
            assert(h.objects.contains_key(b));
            assert forall|k: usize| #[trigger] h.objects.contains_key(k) && k <= a implies k
                <= b by {
                assert(h2.objects.contains_key(k));
            }
        }
        if h.holds(b, a) {
            assert(h2.objects.contains_key(b));
            assert forall|k: usize| #[trigger] h2.objects.contains_key(k) && k <= a implies k
                <= b by {
                assert(h.objects.contains_key(k));
            }
        }
    }
    if h.shaped() {
        assert forall|a: usize, b: usize|
            #![trigger h2.objects.contains_key(a), h2.objects.contains_key(b)]
            h2.objects.contains_key(a) && h2.objects.contains_key(b) && a < b implies a
            + h2.objects[a].fields.len() <= b by {
            assert(h.objects.contains_key(a) && h.objects.contains_key(b));
        }
        assert forall|b: usize| #[trigger] h2.objects.contains_key(b)
            implies h2.objects[b].fields.len()
            >= 1 && b + h2.objects[b].fields.len() <= h2.size() && aligned(b, h2.alignment) by {
            assert(h.objects.contains_key(b));
        }
        assert(h2.shaped());
    }
    if h.fits() {
        assert forall|b: usize| #[trigger] h2.objects.contains_key(b) implies b
            + h2.objects[b].fields.len() <= usize::MAX by {
            assert(h.objects.contains_key(b));
        }
    }
}

/// What the cells show does not matter to the heap.
pub proof fn lemma_cells_keep_wf(h: HeapView, h2: HeapView)
    requires
        h2.objects == h.objects,
        h2.roots == h.roots,
        h2.free == h.free,
        h2.alignment == h.alignment,
        h2.cells.len() == h.cells.len(),
    ensures
        h.shaped() ==> h2.shaped(),
        h.clean() ==> h2.clean(),
{
    if h.shaped() {
        assert forall|x: int| h2.in_object(x) <==> h.in_object(x) by {
            if h2.in_object(x) {
                let b = choose|b: usize| #[trigger]
                    h2.objects.contains_key(b) && b <= x < b + h2.objects[b].fields.len();
                assert(h.objects.contains_key(b) && b <= x < b + h.objects[b].fields.len());
            }
            if h.in_object(x) {
                let b = choose|b: usize| #[trigger]
                    h.objects.contains_key(b) && b <= x < b + h.objects[b].fields.len();
                assert(h2.objects.contains_key(b) && b <= x < b + h2.objects[b].fields.len());
            }
        }
    }
}

/// Replaces the header of the object at `addr`, if there is one.
pub fn set_header(heap: &mut Heap, addr: ObjAddr, header: ObjHeader)
    ensures
        final(heap)@ == with_header(old(heap)@, addr, header),
        same_but_headers(old(heap)@, final(heap)@),
{
    let ghost raw = heap.objects@;
    match heap.objects.remove(&addr) {
        Some(mut obj) => {
            obj.header = header;
            heap.objects.insert(addr, obj);
            proof {
                lemma_views_remove(raw, addr);
                lemma_views_insert(raw.remove(addr), addr, obj);
                assert(heap@.objects =~= with_header(old(heap)@, addr, header).objects);
                assert(heap@.objects.dom() =~= old(heap)@.objects.dom());
            }
        },
        None => {
            assert(heap.objects@ =~= raw);
        },
    }
}

/// Moves the object at `from` to `to` and logs the move. Nothing
/// happens, and nothing is logged, where no object lives at `from`, and
/// where the cells at `to` are not free once the object has left.
pub fn move_object(heap: &mut Heap, eventlog: &mut Vec<GCEvent>, from: ObjAddr, to: ObjAddr) -> (moved:
    bool)
    requires
        old(heap)@.fits(),
    ensures
        moved == (old(heap)@.objects.contains_key(from) && old(heap)@.room_at(from, to)),
        moved ==> crate::heap::relocated(old(heap)@, final(heap)@, from, to) && final(eventlog)@
            == old(eventlog)@.push(
            GCEvent::MoveObject {
                from,
                to,
                size: old(heap)@.objects[from].fields.len() as usize,
            },
        ),
        !moved ==> final(heap)@ == old(heap)@ && final(eventlog)@ == old(eventlog)@,
        moved && old(heap)@.shaped() && aligned(to, old(heap)@.alignment) ==> final(heap)@.shaped(),
{
    let size = match heap.objects.get(&from) {
        Some(object) => object.size(),
        None => {
            return false;
        },
    };
    match heap.move_object(from, to) {
        Ok(_) => {
            eventlog.push(GCEvent::MoveObject { from, to, size });
            true
        },
        Err(_) => false,
    }
}

} // verus!
