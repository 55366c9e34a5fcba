//! The frame around a serialized derived-index cache: magic bytes, the
//! payload length, a CRC-32 of the payload, then the payload.

use crate::error::{Error, ErrorCode, Result};
use crate::index::diskann::codec::{push_u32, push_u64, spec_read_u32, spec_read_u64};
use crate::index::diskann::reader::{read_u32, read_u64};
use crate::index::diskann::sidecar::{crc32, crc32_hash};
use vstd::bytes::*;
use vstd::prelude::*;
use vstd::slice::*;

verus! {

/// The cache format version the payload records.
pub const CACHE_FORMAT_VERSION: u32 = 10;

/// Bytes before the payload: magic, length and checksum.
pub const HEADER_BYTES: usize = 20;

/// The magic bytes that open a cache: `A3SIDX01`.
pub open spec fn cache_magic() -> Seq<u8> {
    seq![0x41u8, 0x33u8, 0x53u8, 0x49u8, 0x44u8, 0x58u8, 0x30u8, 0x31u8]
}

/// A framed payload.
pub open spec fn framed(payload: Seq<u8>) -> Seq<u8> {
    cache_magic() + spec_u64_to_le_bytes(payload.len() as u64) + spec_u32_to_le_bytes(
        crc32(payload),
    ) + payload
}

/// `bytes` is a well-formed frame: the magic, a payload length of at most
/// `max_payload_bytes` that matches the bytes that follow the header, and a
/// checksum of those bytes.
pub open spec fn frame_ok(bytes: Seq<u8>, max_payload_bytes: u64) -> bool {
    &&& bytes.len() >= HEADER_BYTES
    &&& bytes.subrange(0, 8) == cache_magic()
    &&& spec_read_u64(bytes, 8) matches Some(length) && length <= max_payload_bytes && bytes.len()
        == HEADER_BYTES + length
    &&& spec_read_u32(bytes, 16) == Some(crc32(bytes.subrange(HEADER_BYTES as int, bytes.len() as int)))
}

/// Frames an encoded payload; a payload longer than `max_payload_bytes` is a
/// resource error.
pub fn frame_payload(encoded: &[u8], max_payload_bytes: u64) -> (r: Result<Vec<u8>>)
    ensures
        encoded@.len() <= max_payload_bytes ==> (r matches Ok(bytes) && bytes@ == framed(
            encoded@,
        )),
        encoded@.len() > max_payload_bytes ==> (r matches Err(e) && e.code
            == ErrorCode::ResourceExhausted),
{
    let payload_len = encoded.len() as u64;
    if payload_len > max_payload_bytes {
        return Err(Error::resource_exhausted("derived index cache exceeds its storage limit"));
    }
    let mut output: Vec<u8> = Vec::new();
    output.push(0x41);
    output.push(0x33);
    output.push(0x53);
    output.push(0x49);
    output.push(0x44);
    output.push(0x58);
    output.push(0x30);
    output.push(0x31);
    proof {
        assert(output@ =~= cache_magic());
    }
    push_u64(&mut output, payload_len);
    push_u32(&mut output, crc32_hash(encoded));
    let mut copy = slice_to_vec(encoded);
    output.append(&mut copy);
    Ok(output)
}

/// The payload of a well-formed frame; `None` for anything else.
pub fn unframe_payload(bytes: &[u8], max_payload_bytes: u64) -> (r: Option<Vec<u8>>)
    ensures
        frame_ok(bytes@, max_payload_bytes) ==> (r matches Some(payload) && payload@
            == bytes@.subrange(HEADER_BYTES as int, bytes@.len() as int)),
        !frame_ok(bytes@, max_payload_bytes) ==> r is None,
{
    if bytes.len() < HEADER_BYTES {
        return None;
    }
    let magic_ok = bytes[0] == 0x41 && bytes[1] == 0x33 && bytes[2] == 0x53 && bytes[3] == 0x49
        && bytes[4] == 0x44 && bytes[5] == 0x58 && bytes[6] == 0x30 && bytes[7] == 0x31;
    if !magic_ok {
        proof {
            assert(bytes@.subrange(0, 8) != cache_magic()) by {
                if bytes@.subrange(0, 8) == cache_magic() {
                    assert(bytes@[0] == bytes@.subrange(0, 8)[0]);
                    assert(bytes@[1] == bytes@.subrange(0, 8)[1]);
                    assert(bytes@[2] == bytes@.subrange(0, 8)[2]);
                    assert(bytes@[3] == bytes@.subrange(0, 8)[3]);
                    assert(bytes@[4] == bytes@.subrange(0, 8)[4]);
                    assert(bytes@[5] == bytes@.subrange(0, 8)[5]);
                    assert(bytes@[6] == bytes@.subrange(0, 8)[6]);
                    assert(bytes@[7] == bytes@.subrange(0, 8)[7]);
                }
            }
        }
        return None;
    }
    proof {
        assert(bytes@.subrange(0, 8) =~= cache_magic());
    }
    let payload_len = match read_u64(bytes, 8) {
        Some(length) => length,
        None => {
            return None;
        },
    };
    if payload_len > max_payload_bytes {
        return None;
    }
    if payload_len as u128 > usize::MAX as u128 {
        return None;
    }
    let length = payload_len as usize;
    if length > usize::MAX - HEADER_BYTES || bytes.len() != HEADER_BYTES + length {
        return None;
    }
    let expected = match read_u32(bytes, 16) {
        Some(checksum) => checksum,
        None => {
            return None;
        },
    };
    let encoded = slice_subrange(bytes, HEADER_BYTES, bytes.len());
    if crc32_hash(encoded) != expected {
        return None;
    }
    Some(slice_to_vec(encoded))
}

/// Unframing gives back what was framed.
pub proof fn law_unframe_after_frame(payload: Seq<u8>, max_payload_bytes: u64)
    requires
        payload.len() <= max_payload_bytes,
    ensures
        frame_ok(framed(payload), max_payload_bytes),
        framed(payload).subrange(HEADER_BYTES as int, framed(payload).len() as int) == payload,
{
    lemma_auto_spec_u32_to_from_le_bytes();
    lemma_auto_spec_u64_to_from_le_bytes();
    let bytes = framed(payload);
    let length_word = spec_u64_to_le_bytes(payload.len() as u64);
    let checksum_word = spec_u32_to_le_bytes(crc32(payload));
    assert(bytes.subrange(0, 8) =~= cache_magic());
    assert(bytes.subrange(8, 16) =~= length_word);
    assert(bytes.subrange(16, 20) =~= checksum_word);
    assert(bytes.subrange(HEADER_BYTES as int, bytes.len() as int) =~= payload);
}

} // verus!
