use crate::chance::between;
use crate::chance::flip;
use crate::text::decimal;
use crate::text::decimal_digits;
use crate::text::join;
use vstd::prelude::*;

verus! {

/// An index into the heap's address space.
pub type ObjAddr = usize;

/// A scalar payload, or the bits of an address: fields are typed, values are not.
pub type Value = usize;

/// A reference: to an address, or to nothing.
#[derive(Clone, Copy, Debug, PartialEq, Eq, Hash, Structural)]
pub enum Address {
    Ptr(ObjAddr),
    Null,
}

/// A field as `Object::random` draws it: a null reference, or a value from 0 to 9.
pub open spec fn drawn(field: Field) -> bool {
    match field {
        Field::Ref { addr } => addr == Address::Null,
        Field::Scalar { value } => value <= 9,
    }
}

/// The field of the kind and the value that were drawn for it: a null
/// reference where `kind` says so, else the value.
pub open spec fn drawn_field(kind: bool, value: usize) -> Field {
    if kind {
        Field::Ref { addr: Address::Null }
    } else {
        Field::Scalar { value }
    }
}

/// The fields of the kinds and the values that were drawn for them.
pub open spec fn drawn_fields(kinds: Seq<bool>, values: Seq<usize>) -> Seq<Field> {
    Seq::new(kinds.len(), |i: int| drawn_field(kinds[i], values[i]))
}

/// One cell of an object.
#[derive(Clone, Copy, Debug, PartialEq, Eq, Structural)]
pub enum Field {
    Ref { addr: Address },
    Scalar { value: Value },
}

impl Address {
    /// The text shown for this address.
    pub open spec fn text_spec(self) -> Seq<char> {
        match self {
            Address::Ptr(addr) => decimal_digits(addr as nat),
            Address::Null => "Null"@,
        }
    }

    /// The text shown for this address: the number, or `Null`.
    pub fn text(&self) -> (text: String)
        ensures
            text@ == self.text_spec(),
    {
        match self {
            Address::Ptr(addr) => decimal(*addr),
            Address::Null => "Null".to_owned(),
        }
    }
}

impl Field {
    /// The text shown for this field.
    pub open spec fn text_spec(self) -> Seq<char> {
        match self {
            Field::Ref { addr } => "("@ + addr.text_spec() + ")"@,
            Field::Scalar { value } => decimal_digits(value as nat),
        }
    }

    /// The text shown for this field: a value as a number, a reference
    /// in round brackets.
    pub fn text(&self) -> (text: String)
        ensures
            text@ == self.text_spec(),
    {
        match self {
            Field::Ref { addr } => {
                let inner = addr.text();
                let open = join("(", inner.as_str());
                join(open.as_str(), ")")
            },
            Field::Scalar { value } => decimal(*value),
        }
    }

    /// A field with a value.
    pub fn new_scalar(value: usize) -> (field: Self)
        ensures
            field == (Field::Scalar { value }),
    {
        Field::Scalar { value }
    }

    /// A field with a reference.
    pub fn new_ref(addr: Address) -> (field: Self)
        ensures
            field == (Field::Ref { addr }),
    {
        Field::Ref { addr }
    }

    /// The address this field refers to, if it is a non-null reference.
    pub open spec fn target(self) -> Option<usize> {
        match self {
            Field::Ref { addr: Address::Ptr(a) } => Some(a),
            _ => None,
        }
    }
}

/// What the collectors keep in each object.
#[derive(Clone, Copy, Debug, PartialEq, Eq, Structural)]
pub struct ObjHeader {
    /// Set while a collection has found the object reachable.
    pub marked: bool,
    /// Where a compaction in progress will move the object.
    pub fwd_addr: Option<usize>,
}

impl ObjHeader {
    /// The header that was written down with these parts: one that
    /// does not say that it is marked is not.
    pub fn restored(marked: Option<bool>, fwd_addr: Option<usize>) -> (header: Self)
        ensures
            header.marked == (marked == Some(true)),
            header.fwd_addr == fwd_addr,
    {
        let marked = match marked {
            Some(marked) => marked,
            None => false,
        };
        ObjHeader { marked, fwd_addr }
    }
}

/// An object: a header and its fields, one address unit each.
#[derive(Debug)]
pub struct Object {
    pub header: ObjHeader,
    pub fields: Vec<Field>,
}

/// An object as a mathematical value.
pub struct ObjectView {
    pub marked: bool,
    pub fwd_addr: Option<usize>,
    pub fields: Seq<Field>,
}

/// The texts of the fields, with a comma and a blank between two of them.
pub open spec fn fields_text(fields: Seq<Field>) -> Seq<char>
    decreases fields.len(),
{
    if fields.len() == 0 {
        Seq::empty()
    } else if fields.len() == 1 {
        fields[0].text_spec()
    } else {
        fields_text(fields.drop_last()) + ", "@ + fields.last().text_spec()
    }
}

impl ObjectView {
    /// The text shown for this object.
    pub open spec fn text_spec(self) -> Seq<char> {
        "Object [size: "@ + decimal_digits(self.fields.len()) + "] ["@ + fields_text(self.fields)
            + "]"@
    }

    /// The same object with a clean header.
    pub open spec fn clean(self) -> ObjectView {
        ObjectView { marked: false, fwd_addr: None, fields: self.fields }
    }
}

impl View for Object {
    type V = ObjectView;

    open spec fn view(&self) -> ObjectView {
        ObjectView {
            marked: self.header.marked,
            fwd_addr: self.header.fwd_addr,
            fields: self.fields@,
        }
    }
}

impl Clone for Object {
    fn clone(&self) -> (copy: Self)
        ensures
            copy@ == self@,
    {
        let mut fields: Vec<Field> = Vec::new();
        let mut i: usize = 0;
        while i < self.fields.len()
            invariant
                i <= self.fields.len(),
                fields@ == self.fields@.take(i as int),
            decreases self.fields.len() - i,
        {
            fields.push(self.fields[i]);
            i += 1;
        }
        assert(fields@ =~= self.fields@);
        Object { header: self.header, fields }
    }
}

impl Object {
    /// The number of address units the object occupies: one per field.
    pub fn size(&self) -> (n: usize)
        ensures
            n == self@.fields.len(),
    {
        self.fields.len()
    }

    /// The text shown for this object: its size and its fields.
    pub fn text(&self) -> (text: String)
        ensures
            text@ == self@.text_spec(),
    {
        let mut listed: String = String::new();
        let mut i: usize = 0;
        while i < self.fields.len()
            invariant
                i <= self.fields.len(),
                listed@ == fields_text(self.fields@.take(i as int)),
            decreases self.fields.len() - i,
        {
            let piece = self.fields[i].text();
            proof {
                assert(self.fields@.take(i + 1).drop_last() =~= self.fields@.take(i as int));
            }
            if i == 0 {
                listed = piece;
            } else {
                let head = join(listed.as_str(), ", ");
                listed = join(head.as_str(), piece.as_str());
            }
            i += 1;
        }
        assert(self.fields@.take(i as int) =~= self.fields@);
        let size = decimal(self.fields.len());
        let a = join("Object [size: ", size.as_str());
        let b = join(a.as_str(), "] [");
        let c = join(b.as_str(), listed.as_str());
        join(c.as_str(), "]")
    }

    /// The object that is made of what was drawn for its fields: for
    /// each field its kind, a null reference where `kinds` says so and a
    /// value else, and the value for it. The object is unmarked and not
    /// forwarded.
    pub fn of_draws(kinds: &Vec<bool>, values: &Vec<usize>) -> (object: Object)
        requires
            kinds@.len() == values@.len(),
        ensures
            object@ == (ObjectView {
                marked: false,
                fwd_addr: None,
                fields: drawn_fields(kinds@, values@),
            }),
    {
        let mut fields: Vec<Field> = Vec::new();
        let mut i: usize = 0;
        while i < kinds.len()
            invariant
                i <= kinds@.len(),
                kinds@.len() == values@.len(),
                fields@.len() == i,
                forall|j: int| 0 <= j < i ==> #[trigger] fields@[j] == drawn_field(kinds@[j], values@[j]),
            decreases kinds@.len() - i,
        {
            if kinds[i] {
                fields.push(Field::Ref { addr: Address::Null });
            } else {
                fields.push(Field::Scalar { value: values[i] });
            }
            i += 1;
        }
        proof {
            assert(fields@ =~= drawn_fields(kinds@, values@));
        }
        Object { header: ObjHeader { marked: false, fwd_addr: None }, fields }
    }

    /// An object of one to ten fields, each of them by chance a null
    /// reference or a value from 0 to 9: the number of fields is drawn,
    /// then the kind of each field and, for a field with a value, the
    /// value; the object is made of these by `of_draws`.
    pub fn random() -> (object: Object)
        ensures
            !object@.marked,
            object@.fwd_addr is None,
            1 <= object@.fields.len() <= 10,
            forall|i: int|
                0 <= i < object@.fields.len() ==> drawn(#[trigger] object@.fields[i]),
    {
        let num_fields = between(1, 10);
        let mut kinds: Vec<bool> = Vec::new();
        let mut values: Vec<usize> = Vec::new();
        let mut i: usize = 0;
        while i < num_fields
            invariant
                i <= num_fields,
                kinds@.len() == i,
                values@.len() == i,
                forall|j: int| 0 <= j < i ==> #[trigger] values@[j] <= 9,
            decreases num_fields - i,
        {
            let kind = flip();
            let value: usize = if kind {
                0
            } else {
                between(0, 9)
            };
            kinds.push(kind);
            values.push(value);
            i += 1;
        }
        let object = Object::of_draws(&kinds, &values);
        proof {
            assert forall|i: int| 0 <= i < object@.fields.len() implies drawn(
                #[trigger] object@.fields[i],
            ) by {
                assert(values@[i] <= 9);
            }
        }
        object
    }

    /// A fresh object: unmarked, not forwarded.
    pub fn new(fields: Vec<Field>) -> (object: Self)
        ensures
            object@ == (ObjectView { marked: false, fwd_addr: None, fields: fields@ }),
    {
        Self { header: ObjHeader { marked: false, fwd_addr: None }, fields }
    }
}

} // verus!
