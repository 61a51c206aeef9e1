use crate::gc::GCType;
use vstd::prelude::*;

verus! {

/// The alignment of a machine that is configured with nothing else.
pub const ALIGNMENT: usize = 4;

/// The heap size of a machine that is configured with nothing else.
pub const HEAP_SIZE: usize = 1024;

/// What a program runs on: the size of the heap, the alignment of its
/// objects, and the collector.
#[derive(Debug, Clone, Copy, PartialEq, Eq, Structural)]
pub struct ProgramRuntimeConfig {
    pub heap_size: usize,
    pub alignment: usize,
    pub gc_ty: GCType,
}

impl Default for ProgramRuntimeConfig {
    fn default() -> (config: Self)
        ensures
            config == (ProgramRuntimeConfig {
                heap_size: HEAP_SIZE,
                alignment: ALIGNMENT,
                gc_ty: GCType::MarkSweep,
            }),
    {
        ProgramRuntimeConfig { heap_size: HEAP_SIZE, alignment: ALIGNMENT, gc_ty: GCType::MarkSweep }
    }
}

impl ProgramRuntimeConfig {
    /// A configuration.
    pub fn new(heap_size: usize, alignment: usize, gc_ty: GCType) -> (config: Self)
        ensures
            config == (ProgramRuntimeConfig { heap_size, alignment, gc_ty }),
    {
        ProgramRuntimeConfig { heap_size, alignment, gc_ty }
    }
}

} // verus!
