//! Live node and edge-ref counts: given by the caller, or else the lengths of
//! the buffers.

use vstd::prelude::*;

verus! {

/// The counts a pipeline runs on: those the caller bound, or those taken from
/// the buffer lengths.
pub enum FallbackCounts {
    Binding(u32, u32),
    Buffer(u32, u32),
}

impl FallbackCounts {
    /// The node count, whichever way it was given.
    pub open spec fn spec_node_count(&self) -> u32 {
        match self {
            FallbackCounts::Binding(n, _) => *n,
            FallbackCounts::Buffer(n, _) => *n,
        }
    }

    /// The edge-ref count, whichever way it was given.
    pub open spec fn spec_edge_ref_count(&self) -> u32 {
        match self {
            FallbackCounts::Binding(_, m) => *m,
            FallbackCounts::Buffer(_, m) => *m,
        }
    }

    /// Takes the bound counts when there are any, else the fallback counts.
    pub fn new(binding: Option<(u32, u32)>, fallback_counts: (u32, u32)) -> (r: FallbackCounts)
        ensures
            r.spec_node_count() == match binding {
                Some(b) => b.0,
                None => fallback_counts.0,
            },
            r.spec_edge_ref_count() == match binding {
                Some(b) => b.1,
                None => fallback_counts.1,
            },
    {
        match binding {
            Some(b) => FallbackCounts::Binding(b.0, b.1),
            None => FallbackCounts::Buffer(fallback_counts.0, fallback_counts.1),
        }
    }

    /// The live node count.
    pub fn node_count(&self) -> (r: u32)
        ensures
            r == self.spec_node_count(),
    {
        match self {
            FallbackCounts::Binding(n, _) => *n,
            FallbackCounts::Buffer(n, _) => *n,
        }
    }

    /// The live edge-ref count.
    pub fn edge_ref_count(&self) -> (r: u32)
        ensures
            r == self.spec_edge_ref_count(),
    {
        match self {
            FallbackCounts::Binding(_, m) => *m,
            FallbackCounts::Buffer(_, m) => *m,
        }
    }
}

} // verus!
