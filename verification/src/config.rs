//! Library-wide settings.

use vstd::prelude::*;

verus! {

/// The released version of the library.
pub fn version() -> (r: &'static str)
    ensures
        r@ == "0.1.8"@,
{
    "0.1.8"
}

} // verus!
