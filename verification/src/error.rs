use crate::text::join;
use crate::text::quote;
use crate::text::quoted;
use vstd::prelude::*;

verus! {

/// What can go wrong while the machine executes an instruction.
#[derive(Debug, PartialEq, Eq)]
pub enum VMError {
    /// The allocator found no free run that can hold the object.
    AllocationError,
    /// An object was to be freed at an address where none lives.
    DeallocationError,
    /// The address lies in no object.
    SegmentationFault,
    /// A read crossed a null reference; the text says where.
    NullPointerException(String),
    /// Reserved for failures inside a collector.
    GCError,
    /// The session was asked to run past the end of its program.
    UnknownError,
}

impl VMError {
    /// The text shown for this error.
    pub fn message(&self) -> (text: String)
        ensures
            text@ == self.message_spec(),
    {
        match self {
            VMError::AllocationError => "Allocation error".to_owned(),
            VMError::DeallocationError => "Deallocation error".to_owned(),
            VMError::SegmentationFault => "Segmentation fault".to_owned(),
            VMError::NullPointerException(detail) => join(
                "Null pointer exception: ",
                detail.as_str(),
            ),
            VMError::GCError => "Garbage collector error".to_owned(),
            VMError::UnknownError => "UnknownError error".to_owned(),
        }
    }

    /// The name of this error, as it stands in a log: the name of the
    /// kind, and for a null pointer exception its detail behind it, in
    /// round brackets and double quotes.
    pub fn label(&self) -> (text: String)
        ensures
            text@ == self.label_spec(),
    {
        match self {
            VMError::AllocationError => "AllocationError".to_owned(),
            VMError::DeallocationError => "DeallocationError".to_owned(),
            VMError::SegmentationFault => "SegmentationFault".to_owned(),
            VMError::NullPointerException(detail) => {
                let shown = quote(detail.as_str());
                let head = join("NullPointerException(", shown.as_str());
                join(head.as_str(), ")")
            },
            VMError::GCError => "GCError".to_owned(),
            VMError::UnknownError => "UnknownError".to_owned(),
        }
    }

    /// The name of this error, as `label` gives it.
    pub open spec fn label_spec(&self) -> Seq<char> {
        match self {
            VMError::AllocationError => "AllocationError"@,
            VMError::DeallocationError => "DeallocationError"@,
            VMError::SegmentationFault => "SegmentationFault"@,
            VMError::NullPointerException(detail) => "NullPointerException("@ + quoted(detail@)
                + ")"@,
            VMError::GCError => "GCError"@,
            VMError::UnknownError => "UnknownError"@,
        }
    }

    /// The text of this error, as `message` gives it.
    pub open spec fn message_spec(&self) -> Seq<char> {
        match self {
            VMError::AllocationError => "Allocation error"@,
            VMError::DeallocationError => "Deallocation error"@,
            VMError::SegmentationFault => "Segmentation fault"@,
            VMError::NullPointerException(detail) => "Null pointer exception: "@ + detail@,
            VMError::GCError => "Garbage collector error"@,
            VMError::UnknownError => "UnknownError error"@,
        }
    }
}

} // verus!
