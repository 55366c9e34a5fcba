//! The exact Flat index kind: unquantized coordinates and no graph.

use vstd::prelude::*;

verus! {

/// Marker for an exact Flat base. Its coordinates live with the vector
/// base; this kind only tells Flat apart from the approximate layouts.
#[derive(Debug, Clone, Copy, PartialEq, Eq, Structural)]
pub struct FlatIndex;

impl FlatIndex {
    /// The Flat marker.
    pub fn build() -> (r: Self)
        ensures
            r == FlatIndex,
    {
        FlatIndex
    }

    /// A Flat base stores nothing beyond the shared coordinates.
    pub fn estimated_payload_bytes() -> (r: usize)
        ensures
            r == 0,
    {
        0
    }
}

} // verus!
