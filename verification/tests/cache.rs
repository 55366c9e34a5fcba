use a3s_vec::index::cache::{frame_payload, unframe_payload, HEADER_BYTES};
use a3s_vec::ErrorCode;

const CACHE_MAGIC: &[u8; 8] = b"A3SIDX01";
const MAX_PAYLOAD_BYTES: u64 = 256 * 1024 * 1024;

#[test]
fn malformed_headers_and_checksums_are_cache_misses() {
    assert!(unframe_payload(&[], MAX_PAYLOAD_BYTES).is_none());
    let mut bytes = vec![0_u8; HEADER_BYTES];
    bytes[..CACHE_MAGIC.len()].copy_from_slice(CACHE_MAGIC);
    bytes[CACHE_MAGIC.len()..CACHE_MAGIC.len() + 8].copy_from_slice(&1_u64.to_le_bytes());
    bytes.push(1);
    assert!(unframe_payload(&bytes, MAX_PAYLOAD_BYTES).is_none());
}

#[test]
fn decode_payload_rejects_oversized_and_length_mismatched_headers() {
    let mut bytes = vec![0_u8; HEADER_BYTES];
    bytes[..CACHE_MAGIC.len()].copy_from_slice(CACHE_MAGIC);
    let huge = (MAX_PAYLOAD_BYTES + 1).to_le_bytes();
    bytes[CACHE_MAGIC.len()..CACHE_MAGIC.len() + 8].copy_from_slice(&huge);
    assert!(unframe_payload(&bytes, MAX_PAYLOAD_BYTES).is_none());

    let mut short = vec![0_u8; HEADER_BYTES];
    short[..CACHE_MAGIC.len()].copy_from_slice(CACHE_MAGIC);
    short[CACHE_MAGIC.len()..CACHE_MAGIC.len() + 8].copy_from_slice(&8_u64.to_le_bytes());
    assert!(unframe_payload(&short, MAX_PAYLOAD_BYTES).is_none());
}

#[test]
fn framed_payload_round_trips() {
    let payload = b"derived index payload".to_vec();
    let framed = frame_payload(&payload, MAX_PAYLOAD_BYTES).expect("payload must frame");
    assert_eq!(&framed[..8], CACHE_MAGIC);
    assert_eq!(&framed[8..16], &(payload.len() as u64).to_le_bytes());
    assert_eq!(&framed[16..20], &crc32fast::hash(&payload).to_le_bytes());
    assert_eq!(&framed[HEADER_BYTES..], payload.as_slice());
    assert_eq!(unframe_payload(&framed, MAX_PAYLOAD_BYTES), Some(payload));
}

#[test]
fn empty_payload_frames_to_a_bare_header() {
    let framed = frame_payload(&[], MAX_PAYLOAD_BYTES).expect("empty payload must frame");
    assert_eq!(framed.len(), HEADER_BYTES);
    assert_eq!(&framed[16..20], &0_u32.to_le_bytes());
    assert_eq!(unframe_payload(&framed, MAX_PAYLOAD_BYTES), Some(Vec::new()));
}

#[test]
fn oversized_payload_is_a_resource_error() {
    let error = frame_payload(&[1, 2, 3], 2).expect_err("payload over the limit must fail");
    assert_eq!(error.code, ErrorCode::ResourceExhausted);
    assert!(frame_payload(&[1, 2], 2).is_ok());
}

#[test]
fn corrupted_payload_byte_is_a_cache_miss() {
    let mut framed = frame_payload(&[7, 8, 9], MAX_PAYLOAD_BYTES).expect("payload must frame");
    framed[HEADER_BYTES + 1] ^= 0xff;
    assert!(unframe_payload(&framed, MAX_PAYLOAD_BYTES).is_none());
}

#[test]
fn payload_over_the_reader_limit_is_a_cache_miss() {
    let framed = frame_payload(&[7, 8, 9], MAX_PAYLOAD_BYTES).expect("payload must frame");
    assert!(unframe_payload(&framed, 2).is_none());
    assert!(unframe_payload(&framed, 3).is_some());
}

#[test]
fn the_frame_checksum_is_the_ieee_crc32_of_the_payload() {
    let framed = frame_payload(b"123456789", MAX_PAYLOAD_BYTES).expect("payload must frame");
    assert_eq!(&framed[16..20], &0xCBF4_3926_u32.to_le_bytes());
    let empty = frame_payload(&[], MAX_PAYLOAD_BYTES).expect("empty payload must frame");
    assert_eq!(&empty[16..20], &0_u32.to_le_bytes());
}
