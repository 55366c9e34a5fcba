//! Shared enumerations of the index layer.

use vstd::prelude::*;

verus! {

/// Distance or similarity used to compare vectors.
#[derive(Debug, Clone, Copy, PartialEq, Eq, Structural)]
pub enum MetricType {
    Undefined,
    L2,
    Ip,
    Cosine,
    MipsL2,
}

} // verus!
