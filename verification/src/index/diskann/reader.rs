//! Bounds-checked little-endian reads for positioned sidecar records.

use vstd::bytes::*;
use vstd::prelude::*;
use vstd::slice::*;
use super::codec::{spec_read_u32, spec_read_u64};

verus! {

/// Reads the little-endian `u32` at `offset`; `None` past the end, including
/// when `offset + 4` would overflow.
pub fn read_u32(bytes: &[u8], offset: usize) -> (r: Option<u32>)
    ensures
        r == spec_read_u32(bytes@, offset as int),
{
    let total = bytes.len();
    let end = offset.checked_add(4)?;
    if end <= total {
        let window = slice_subrange(bytes, offset, end);
        Some(u32_from_le_bytes(window))
    } else {
        None
    }
}

/// Reads the little-endian `u64` at `offset`; `None` past the end, including
/// when `offset + 8` would overflow.
pub fn read_u64(bytes: &[u8], offset: usize) -> (r: Option<u64>)
    ensures
        r == spec_read_u64(bytes@, offset as int),
{
    let total = bytes.len();
    let end = offset.checked_add(8)?;
    if end <= total {
        let window = slice_subrange(bytes, offset, end);
        Some(u64_from_le_bytes(window))
    } else {
        None
    }
}

} // verus!
