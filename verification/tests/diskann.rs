use a3s_vec::index::diskann::codec::{
    align_up, encoded_bytes_len, push_bytes, push_u32, push_u64, put_u32, put_u64, read_u32,
    read_u64, usize_to_u32, usize_to_u64, SliceReader,
};
use a3s_vec::index::diskann::layout::{field_storage, SECTOR_BYTES};
use a3s_vec::index::diskann::node::{record_bytes_for, DiskNode, NodeLayout, PqShape};
use a3s_vec::index::diskann::reader;
use a3s_vec::ErrorCode;

fn vector_layout(ordinals: &[u64]) -> NodeLayout {
    NodeLayout::new(2, 3, Some(ordinals[0]), 48, 85, 0, 4096, ordinals, None).expect("layout")
}

fn node(bits: Vec<u32>, neighbors: Vec<u64>) -> DiskNode {
    DiskNode {
        vector_bits: bits,
        code: Vec::new(),
        neighbors,
    }
}

#[test]
fn little_endian_words_round_trip() {
    let mut bytes = Vec::new();
    push_u32(&mut bytes, 0x0102_0304);
    push_u64(&mut bytes, 0x1122_3344_5566_7788);
    assert_eq!(bytes[..4], [4, 3, 2, 1]);
    assert_eq!(read_u32(&bytes, 0), Some(0x0102_0304));
    assert_eq!(read_u64(&bytes, 4), Some(0x1122_3344_5566_7788));
    assert_eq!(read_u64(&bytes, 5), None);
    put_u32(&mut bytes, 0, 7);
    put_u64(&mut bytes, 4, 9);
    assert_eq!(read_u32(&bytes, 0), Some(7));
    assert_eq!(read_u64(&bytes, 4), Some(9));
    assert_eq!(reader::read_u32(&bytes, usize::MAX - 1), None);
    assert_eq!(reader::read_u64(&bytes, 4), Some(9));
}

#[test]
fn length_prefixed_strings_round_trip_through_the_reader() {
    let mut bytes = Vec::new();
    push_bytes(&mut bytes, b"source").expect("short string");
    push_u32(&mut bytes, 5);
    push_u64(&mut bytes, 6);
    assert_eq!(encoded_bytes_len(b"source").expect("length"), 10);
    let mut cursor = SliceReader::new(&bytes);
    assert_eq!(cursor.read_bytes(), Some(&b"source"[..]));
    assert_eq!(cursor.read_u32(), Some(5));
    assert!(!cursor.is_empty());
    assert_eq!(cursor.read_u64(), Some(6));
    assert!(cursor.is_empty());
    assert_eq!(cursor.read_u32(), None);
}

#[test]
fn narrowing_and_alignment_report_overflow() {
    assert_eq!(usize_to_u32(7, "count").expect("fits"), 7);
    assert_eq!(usize_to_u64(7, "count").expect("fits"), 7);
    if usize::BITS > 32 {
        let too_big = usize::try_from(u64::from(u32::MAX) + 1).expect("64-bit usize");
        assert_eq!(usize_to_u32(too_big, "count").err().expect("overflow").code, ErrorCode::ResourceExhausted);
    }
    assert_eq!(align_up(13, 8), Some(16));
    assert_eq!(align_up(16, 8), Some(16));
    assert_eq!(align_up(1, 0), None);
    assert_eq!(align_up(usize::MAX, 8), None);
}

#[test]
fn field_storage_packs_small_records_and_strides_large_ones() {
    assert_eq!(field_storage(48, 100).expect("small"), (85, 0, 2 * SECTOR_BYTES));
    assert_eq!(field_storage(5_000, 3).expect("large"), (0, 2, 6 * SECTOR_BYTES));
    assert_eq!(field_storage(4_096, 0).expect("empty"), (1, 0, 0));
    assert_eq!(
        field_storage(4_097, usize::MAX).err().expect("overflow").code,
        ErrorCode::ResourceExhausted
    );
}

#[test]
fn record_lengths_cover_prefix_payload_and_slots() {
    assert_eq!(record_bytes_for(2, 3, None).expect("vector"), 48);
    assert_eq!(record_bytes_for(3, 1, None).expect("vector"), 40);
    assert_eq!(record_bytes_for(1_024, 16, Some(9)).expect("pq"), 160);
    assert_eq!(
        record_bytes_for(usize::MAX, 1, None).err().expect("overflow").code,
        ErrorCode::ResourceExhausted
    );
}

#[test]
fn layouts_map_ordinals_to_record_positions() {
    let layout = vector_layout(&[10, 3, 7]);
    assert!(layout.contains_ordinal(3));
    assert!(!layout.contains_ordinal(4));
    assert!(!layout.contains_ordinal(u64::MAX));
    assert_eq!(layout.record_position(10), Some(4_096));
    assert_eq!(layout.record_position(3), Some(4_096 + 48));
    assert_eq!(layout.record_position(7), Some(4_096 + 96));
    assert_eq!(layout.record_position(8), None);
    assert_eq!(layout.record_extent(4_096 + 96).expect("extent"), (4_096, 4_096, 96));

    let strided = NodeLayout::new(1_024, 16, None, 4_240, 0, 2, 8_192, &[0, 1, 2], None).expect("layout");
    assert_eq!(strided.record_position(2), Some(8_192 + 2 * 8_192));
    assert_eq!(strided.record_extent(24_576).expect("extent"), (24_576, 8_192, 0));
}

#[test]
fn layout_construction_checks_entry_and_codebook() {
    let missing_entry = NodeLayout::new(2, 3, Some(99), 48, 85, 0, 0, &[1, 2], None);
    assert_eq!(missing_entry.err().expect("entry").code, ErrorCode::Internal);
    let pq = PqShape {
        chunk_count: 2,
        centroid_count: 4,
        dimension: 8,
    };
    let wrong_codebook = NodeLayout::new(6, 3, None, 48, 85, 0, 0, &[1, 2], Some(pq));
    assert_eq!(wrong_codebook.err().expect("codebook").code, ErrorCode::Internal);
    assert!(NodeLayout::new(8, 3, None, 48, 85, 0, 0, &[1, 2], Some(pq)).is_ok());
}

#[test]
fn encoded_nodes_parse_back() {
    let layout = vector_layout(&[10, 3, 7]);
    let original = node(vec![1.5_f32.to_bits(), (-2.0_f32).to_bits()], vec![3, 7]);
    let record = layout.encode_node(10, &original).expect("encode");
    assert_eq!(record.len(), 48);
    assert_eq!(read_u64(&record, 0), Some(10));
    assert_eq!(read_u32(&record, 8), Some(2));
    let parsed = layout.parse_node(10, &record).expect("parse");
    assert_eq!(parsed.vector_bits, original.vector_bits);
    assert_eq!(parsed.neighbors, vec![3, 7]);
    assert!(parsed.code.is_empty());

    let pq = PqShape {
        chunk_count: 3,
        centroid_count: 4,
        dimension: 2,
    };
    let quantized = NodeLayout::new(2, 1, None, 32, 128, 0, 0, &[5, 6], Some(pq)).expect("layout");
    let coded = DiskNode {
        vector_bits: Vec::new(),
        code: vec![0, 3, 1],
        neighbors: vec![6],
    };
    let record = quantized.encode_node(5, &coded).expect("encode");
    let parsed = quantized.parse_node(5, &record).expect("parse");
    assert_eq!(parsed.code, vec![0, 3, 1]);
    assert_eq!(parsed.neighbors, vec![6]);
    assert!(parsed.vector_bits.is_empty());
}

#[test]
fn non_canonical_records_are_rejected() {
    let layout = vector_layout(&[10, 3, 7]);
    let record = layout.encode_node(10, &node(vec![0, 0], vec![3])).expect("encode");
    assert!(layout.parse_node(3, &record).is_err());

    let mut reserved = record.clone();
    reserved[12] = 1;
    assert!(layout.parse_node(10, &reserved).is_err());

    let mut degree = record.clone();
    put_u32(&mut degree, 8, 4);
    assert!(layout.parse_node(10, &degree).is_err());

    let mut infinite = record.clone();
    put_u32(&mut infinite, 16, f32::INFINITY.to_bits());
    assert!(layout.parse_node(10, &infinite).is_err());

    let mut unused = record.clone();
    put_u64(&mut unused, 32, 7);
    assert!(layout.parse_node(10, &unused).is_err());

    let mut unknown = record.clone();
    put_u64(&mut unknown, 24, 4);
    assert!(layout.parse_node(10, &unknown).is_err());

    let mut own = record.clone();
    put_u64(&mut own, 24, 10);
    assert!(layout.parse_node(10, &own).is_err());

    let duplicate = layout.encode_node(10, &node(vec![0, 0], vec![3, 3])).expect("encode");
    assert!(layout.parse_node(10, &duplicate).is_err());

    let mut padded = record.clone();
    padded.push(1);
    assert!(layout.parse_node(10, &padded).is_err());
    let mut zero_padded = record.clone();
    zero_padded.push(0);
    assert!(layout.parse_node(10, &zero_padded).is_ok());

    assert_eq!(layout.parse_node(10, &record[..20]).err().expect("short").code, ErrorCode::Internal);
}

#[test]
fn encoding_rejects_nodes_that_do_not_fit_the_field() {
    let layout = vector_layout(&[10, 3, 7]);
    let crowded = node(vec![0, 0], vec![3, 7, 10, 3]);
    assert_eq!(layout.encode_node(10, &crowded).err().expect("degree").code, ErrorCode::Internal);
    let short = node(vec![0], vec![]);
    assert_eq!(layout.encode_node(10, &short).err().expect("dimension").code, ErrorCode::Internal);
}

#[test]
fn records_are_cut_from_their_extent() {
    let layout = vector_layout(&[10, 3, 7]);
    let extent: Vec<u8> = (0..200_u8).collect();
    let record = layout.record_in_extent(&extent, 100).expect("record");
    assert_eq!(record, (100..148_u8).collect::<Vec<u8>>());
    assert_eq!(layout.record_in_extent(&extent, 160).err().expect("past end").code, ErrorCode::Internal);
    assert_eq!(
        layout.record_in_extent(&extent, usize::MAX).err().expect("overflow").code,
        ErrorCode::ResourceExhausted
    );
}
