use crate::error::VMError;
use crate::heap::lemma_views_insert;
use crate::heap::lemma_views_remove;
use crate::heap::Heap;
use crate::heap::HeapView;
use crate::object::Address;
use crate::object::Field;
use crate::object::ObjAddr;
use crate::object::ObjectView;
use crate::object::Value;
use crate::text::hex_digits;
use crate::text::hex;
use crate::text::join;
use vstd::prelude::*;

verus! {

/// Reads and writes the fields of the objects of a heap.
#[derive(Debug)]
pub struct Mutator;

/// Why a read gives no value.
pub enum Fault {
    /// An address of the chain lies in no object.
    Segmentation,
    /// The field at this address is a null reference.
    Null(usize),
    /// More references were followed than the heap has cells: the chain
    /// runs in a circle.
    Circle,
}

/// The detail of a null pointer exception at `address`.
pub open spec fn null_text(address: usize) -> Seq<char> {
    "Attempted to dereference NULL address at 0x"@ + hex_digits(address as nat)
}

/// The detail of a null pointer exception at `address`.
fn null_message(address: usize) -> (text: String)
    ensures
        text@ == null_text(address),
{
    let digits = hex(address);
    join("Attempted to dereference NULL address at 0x", digits.as_str())
}

/// The base of the object that holds `addr`, if one does.
pub open spec fn base_of(h: HeapView, addr: usize) -> Option<usize> {
    if exists|b: usize| h.holds(b, addr) {
        Some(choose|b: usize| h.holds(b, addr))
    } else {
        None
    }
}

/// At most one object holds an address.
pub proof fn lemma_base_of(h: HeapView, base: usize, addr: usize)
    requires
        h.holds(base, addr),
    ensures
        base_of(h, addr) == Some(base),
{
    let b = choose|b: usize| h.holds(b, addr);
    assert(h.holds(b, addr));
    assert(h.objects.contains_key(b) && b <= addr);
    assert(h.objects.contains_key(base) && base <= addr);
}

/// The object that `base_of` names holds the address.
pub proof fn lemma_held(h: HeapView, addr: usize)
    requires
        base_of(h, addr) is Some,
    ensures
        h.holds(base_of(h, addr)->0, addr),
{
    let holder = choose|b: usize| h.holds(b, addr);
    assert(h.holds(holder, addr));
    lemma_base_of(h, holder, addr);
}

/// The field at `addr`, if an object holds that address.
pub open spec fn field_at(h: HeapView, addr: usize) -> Option<Field> {
    match base_of(h, addr) {
        Some(b) => Some(h.objects[b].fields[addr - b]),
        None => None,
    }
}

/// What a read at `addr` gives when it may still follow `hops` references:
/// the value of a scalar field, and for a reference what a read at its
/// target gives.
pub open spec fn follow(h: HeapView, addr: usize, hops: nat) -> Result<usize, Fault>
    decreases hops,
{
    match field_at(h, addr) {
        None => Err(Fault::Segmentation),
        Some(Field::Scalar { value }) => Ok(value),
        Some(Field::Ref { addr: Address::Null }) => Err(Fault::Null(addr)),
        Some(Field::Ref { addr: Address::Ptr(next) }) => if hops == 0 {
            Err(Fault::Circle)
        } else {
            follow(h, next, (hops - 1) as nat)
        },
    }
}

/// `got` reports `outcome`: the value, or the error that stands for the
/// fault. A chain that runs in a circle is reported as a segmentation
/// fault, since it leads to no field with a value.
pub open spec fn reports(got: Result<usize, VMError>, outcome: Result<usize, Fault>) -> bool {
    match outcome {
        Ok(v) => got == Ok::<usize, VMError>(v),
        Err(Fault::Segmentation) => got == Err::<usize, VMError>(VMError::SegmentationFault),
        Err(Fault::Circle) => got == Err::<usize, VMError>(VMError::SegmentationFault),
        Err(Fault::Null(at)) => got matches Err(VMError::NullPointerException(text)) && text@
            == null_text(at),
    }
}

/// What a write of `value` leaves in a field: a scalar stays a scalar, a
/// reference becomes a reference to the address `value`.
pub open spec fn written(field: Field, value: usize) -> Field {
    match field {
        Field::Ref { addr } => Field::Ref { addr: Address::Ptr(value) },
        Field::Scalar { value: _ } => Field::Scalar { value },
    }
}

/// The heap after a write of `value` to the address `addr` that the object at `base` holds.
pub open spec fn after_write(h: HeapView, base: usize, addr: usize, value: usize) -> HeapView {
    HeapView {
        objects: h.objects.insert(
            base,
            ObjectView {
                fields: h.objects[base].fields.update(
                    addr - base,
                    written(h.objects[base].fields[addr - base], value),
                ),
                ..h.objects[base]
            },
        ),
        ..h
    }
}

/// A write changes no object's place or size, so the same objects hold
/// the same addresses afterwards.
pub proof fn lemma_write_keeps_layout(h: HeapView, base: usize, addr: usize, value: usize)
    requires
        h.holds(base, addr),
    ensures
        forall|b: usize, a: usize| after_write(h, base, addr, value).holds(b, a) <==> h.holds(b, a),
        forall|x: int| after_write(h, base, addr, value).in_object(x) <==> h.in_object(x),
        h.shaped() ==> after_write(h, base, addr, value).shaped(),
        h.clean() ==> after_write(h, base, addr, value).clean(),
        h.fits() ==> after_write(h, base, addr, value).fits(),
{
    let h2 = after_write(h, base, addr, value);
    assert(h2.objects.dom() =~= h.objects.dom());
    assert forall|b: usize| h.objects.contains_key(b) implies h2.objects[b].fields.len()
        == h.objects[b].fields.len() by {}
    assert forall|b: usize, a: usize| h2.holds(b, a) <==> h.holds(b, a) by {
        if h2.holds(b, a) {
            assert(h.objects.contains_key(b));
            assert forall|k: usize| #[trigger] h.objects.contains_key(k) && k <= a implies k
                <= b by {
                assert(h2.objects.contains_key(k));
            }
        }
        if h.holds(b, a) {
            assert(h2.objects.contains_key(b));
            assert forall|k: usize| #[trigger] h2.objects.contains_key(k) && k <= a implies k
                <= b by {
                assert(h.objects.contains_key(k));
            }
        }
    }
    assert forall|x: int| h2.in_object(x) <==> h.in_object(x) by {
        if h2.in_object(x) {
            let b = choose|b: usize| #[trigger]
                h2.objects.contains_key(b) && b <= x < b + h2.objects[b].fields.len();
            assert(h.objects.contains_key(b) && b <= x < b + h.objects[b].fields.len());
        }
        if h.in_object(x) {
            let b = choose|b: usize| #[trigger]
                h.objects.contains_key(b) && b <= x < b + h.objects[b].fields.len();
            assert(h2.objects.contains_key(b) && b <= x < b + h2.objects[b].fields.len());
        }
    }
    if h.shaped() {
        assert forall|a: usize, b: usize|
            #![trigger h2.objects.contains_key(a), h2.objects.contains_key(b)]
            h2.objects.contains_key(a) && h2.objects.contains_key(b) && a < b implies a
            + h2.objects[a].fields.len() <= b by {
            assert(h.objects.contains_key(a) && h.objects.contains_key(b));
        }
        assert forall|b: usize| #[trigger] h2.objects.contains_key(b)
            implies h2.objects[b].fields.len()
            >= 1 && b + h2.objects[b].fields.len() <= h2.size() by {
            assert(h.objects.contains_key(b));
        }
        assert(h2.shaped());
    }
    if h.clean() {
        assert forall|b: usize| #[trigger] h2.objects.contains_key(b) implies !h2.objects[b].marked
            && h2.objects[b].fwd_addr is None by {
            assert(h.objects.contains_key(b));
        }
    }
    if h.fits() {
        assert forall|b: usize| #[trigger] h2.objects.contains_key(b) implies b
            + h2.objects[b].fields.len() <= usize::MAX by {
            assert(h.objects.contains_key(b));
        }
    }
}

/// A value written to a scalar field is the value read there afterwards.
pub proof fn lemma_write_then_read(h: HeapView, base: usize, addr: usize, value: usize, hops: nat)
    requires
        h.holds(base, addr),
        h.objects[base].fields[addr - base] is Scalar,
    ensures
        follow(after_write(h, base, addr, value), addr, hops) == Ok::<usize, Fault>(value),
{
    let h2 = after_write(h, base, addr, value);
    lemma_write_keeps_layout(h, base, addr, value);
    assert(h2.holds(base, addr));
    lemma_base_of(h2, base, addr);
}

impl Default for Mutator {
    fn default() -> Self {
        Self::new()
    }
}

impl Mutator {
    /// A mutator. It keeps nothing: it works on the heap that it is given.
    pub fn new() -> Self {
        Mutator {  }
    }

    /// The value at `address`: that of a scalar field, and for a reference
    /// the value at its target. A segmentation fault where an address of
    /// the chain lies in no object, a null pointer exception where the
    /// chain ends in a null reference.
    ///
    /// A read follows at most as many references as the heap has cells;
    /// a chain that asks for more runs in a circle and is reported as a
    /// segmentation fault.
    pub fn read(&self, heap: &Heap, address: ObjAddr) -> (got: Result<Value, VMError>)
        ensures
            reports(got, follow(heap@, address, heap@.cells.len())),
    {
        self.read_rec(heap, address, heap.memory.len())
    }

    /// The value at `address`, following at most `hops` references.
    pub fn read_rec(&self, heap: &Heap, address: ObjAddr, hops: usize) -> (got: Result<
        Value,
        VMError,
    >)
        ensures
            reports(got, follow(heap@, address, hops as nat)),
    {
        let ghost h = heap@;
        let mut current: usize = address;
        let mut left: usize = hops;
        loop
            invariant
                h == heap@,
                follow(h, current, left as nat) == follow(h, address, hops as nat),
            decreases left,
        {
            let base = match heap.lookup_object_addr(current) {
                Ok(base) => base,
                Err(_) => {
                    return Err(VMError::SegmentationFault);
                },
            };
            proof {
                lemma_base_of(h, base, current);
            }
            let object = heap.objects.get(&base).unwrap();
            let field = object.fields[current - base];
            match field {
                Field::Scalar { value } => {
                    return Ok(value);
                },
                Field::Ref { addr: Address::Null } => {
                    return Err(VMError::NullPointerException(null_message(current)));
                },
                Field::Ref { addr: Address::Ptr(next) } => {
                    if left == 0 {
                        return Err(VMError::SegmentationFault);
                    }
                    current = next;
                    left = left - 1;
                },
            }
        }
    }

    /// Writes `value` to the field at `address`: a scalar field takes the
    /// value, a reference field becomes a reference to the address `value`,
    /// which is not looked at. A segmentation fault where `address` lies
    /// in no object; the heap is unchanged then.
    pub fn write(&self, heap: &mut Heap, address: ObjAddr, value: Value) -> (done: Result<
        (),
        VMError,
    >)
        ensures
            match done {
                Ok(_) => base_of(old(heap)@, address) matches Some(base) && final(heap)@
                    == after_write(old(heap)@, base, address, value),
                Err(e) => e == VMError::SegmentationFault && base_of(old(heap)@, address) is None
                    && final(heap)@ == old(heap)@,
            },
            old(heap)@.shaped() ==> final(heap)@.shaped(),
            old(heap)@.clean() ==> final(heap)@.clean(),
            old(heap)@.fits() ==> final(heap)@.fits(),
    {
        let ghost h = heap@;
        let base = match heap.lookup_object_addr(address) {
            Ok(base) => base,
            Err(_) => {
                return Err(VMError::SegmentationFault);
            },
        };
        proof {
            lemma_base_of(h, base, address);
            lemma_write_keeps_layout(h, base, address, value);
        }
        let ghost raw = heap.objects@;
        let mut object = heap.objects.remove(&base).unwrap();
        let index: usize = address - base;
        let field = match object.fields[index] {
            Field::Ref { addr: _ } => Field::Ref { addr: Address::Ptr(value) },
            Field::Scalar { value: _ } => Field::Scalar { value },
        };
        object.fields.set(index, field);
        heap.objects.insert(base, object);
        proof {
            lemma_views_remove(raw, base);
            lemma_views_insert(raw.remove(base), base, object);
            assert(heap@.objects =~= after_write(h, base, address, value).objects);
        }
        Ok(())
    }
}

} // verus!
