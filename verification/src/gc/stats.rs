use vstd::prelude::*;

verus! {

/// What a collection reports besides its events.
#[derive(Debug, Clone, Copy, PartialEq, Eq, Structural)]
pub struct GCStats;

impl GCStats {
    /// The statistics of a collection.
    pub fn new() -> Self {
        GCStats {  }
    }
}

impl Default for GCStats {
    fn default() -> Self {
        Self::new()
    }
}

} // verus!
