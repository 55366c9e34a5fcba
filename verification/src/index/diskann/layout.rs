//! Sector layout arithmetic for sidecar fields.

use crate::error::{Error, ErrorCode, Result};
use super::codec::align_up;
use vstd::prelude::*;

verus! {

/// Bytes per sidecar sector.
pub const SECTOR_BYTES: usize = 4096;

/// The storage shape of a field: how many records share a sector (records no
/// larger than a sector), how many sectors each record spans (larger
/// records), and the field's total byte length; `None` when a quantity
/// overflows.
pub open spec fn spec_field_storage(record_bytes: int, node_count: int) -> Option<(int, int, int)>
    recommends
        record_bytes > 0,
{
    if record_bytes <= 4096 {
        let per_sector = 4096int / record_bytes;
        if node_count + per_sector - 1 > usize::MAX {
            None
        } else {
            let sectors = (node_count + per_sector - 1) / per_sector;
            if sectors * 4096 > usize::MAX {
                None
            } else {
                Some((per_sector, 0, sectors * 4096))
            }
        }
    } else {
        if record_bytes + 4095 > usize::MAX {
            None
        } else {
            let stride = ((record_bytes + 4095) / 4096) * 4096;
            if node_count * stride > usize::MAX {
                None
            } else {
                Some((0, stride / 4096, node_count * stride))
            }
        }
    }
}

/// Lays out `node_count` records of `record_bytes` bytes: small records are
/// packed without crossing a sector, large ones start on sector boundaries.
pub fn field_storage(record_bytes: usize, node_count: usize) -> (r: Result<(usize, usize, usize)>)
    requires
        record_bytes > 0,
    ensures
        match spec_field_storage(record_bytes as int, node_count as int) {
            Some((a, b, c)) => r matches Ok(v) && v.0 == a && v.1 == b && v.2 == c,
            None => r matches Err(e) && e.code == ErrorCode::ResourceExhausted,
        },
{
    if record_bytes <= SECTOR_BYTES {
        let nodes_per_sector = SECTOR_BYTES / record_bytes;
        assert(nodes_per_sector >= 1) by (nonlinear_arith)
            requires
                nodes_per_sector == 4096int / record_bytes as int,
                0 < record_bytes <= 4096,
        ;
        let sectors = match node_count.checked_add(nodes_per_sector - 1) {
            Some(value) => value / nodes_per_sector,
            None => {
                return Err(Error::resource_exhausted("DiskANN sector count overflow"));
            },
        };
        let bytes = match sectors.checked_mul(SECTOR_BYTES) {
            Some(value) => value,
            None => {
                return Err(Error::resource_exhausted("DiskANN field length overflow"));
            },
        };
        Ok((nodes_per_sector, 0, bytes))
    } else {
        let stride = match align_up(record_bytes, SECTOR_BYTES) {
            Some(value) => value,
            None => {
                return Err(Error::resource_exhausted("DiskANN record stride overflow"));
            },
        };
        let sectors_per_node = stride / SECTOR_BYTES;
        let bytes = match node_count.checked_mul(stride) {
            Some(value) => value,
            None => {
                return Err(Error::resource_exhausted("DiskANN field length overflow"));
            },
        };
        Ok((0, sectors_per_node, bytes))
    }
}

} // verus!
