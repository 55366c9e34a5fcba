use a3s_vec::index::diskann::codec::{put_u32, read_u32, read_u64};
use a3s_vec::index::diskann::node::{DiskNode, NodeLayout, PqShape};
use a3s_vec::index::diskann::sidecar::{
    encode, prepare, validates, Codebook, GraphField, CHECKSUM_OFFSET, FIXED_HEADER_BYTES,
};
use a3s_vec::ErrorCode;

const SECTOR: usize = 4096;

fn vector_field(dimension: usize, count: u64) -> GraphField {
    let nodes: Vec<(u64, DiskNode)> = (0..count)
        .map(|ordinal| {
            let bits = (0..dimension)
                .map(|coordinate| (ordinal as f32 + coordinate as f32 / 1_024.0).to_bits())
                .collect();
            let neighbors = (1..=3_u64)
                .map(|step| (ordinal + step) % count)
                .filter(|neighbor| *neighbor != ordinal)
                .collect::<std::collections::BTreeSet<_>>()
                .into_iter()
                .collect();
            (
                ordinal,
                DiskNode {
                    vector_bits: bits,
                    code: Vec::new(),
                    neighbors,
                },
            )
        })
        .collect();
    GraphField {
        name: b"embedding".to_vec(),
        index_type: 5,
        dimension,
        max_degree: 3,
        list_size: 16,
        alpha_bits: 1.2_f64.to_bits(),
        entry_ordinal: Some(0),
        codebook: None,
        graph_ordinals: (0..count).collect(),
        nodes,
    }
}

fn reader_for(field: &GraphField, bytes: &[u8]) -> NodeLayout {
    let plan = prepare(std::slice::from_ref(field), b"source", b"digest").expect("plan");
    let p = plan.fields[0];
    let ordinals: Vec<u64> = field.nodes.iter().map(|(ordinal, _)| *ordinal).collect();
    let pq = field.codebook.as_ref().map(|codebook| PqShape {
        chunk_count: codebook.chunk_count,
        centroid_count: codebook.centroid_count,
        dimension: field.dimension,
    });
    assert!(bytes.len() >= p.data_offset + p.data_bytes);
    NodeLayout::new(
        field.dimension,
        field.max_degree,
        field.entry_ordinal,
        p.record_bytes,
        p.nodes_per_sector,
        p.sectors_per_node,
        p.data_offset,
        &ordinals,
        pq,
    )
    .expect("reader layout")
}

#[test]
fn small_records_pack_into_sectors_and_validate_strictly() {
    let fields = vec![vector_field(2, 64)];
    let plan = prepare(&fields, b"source", b"digest").expect("plan");
    let p = plan.fields[0];
    assert_eq!(p.record_bytes, 48);
    assert!(p.nodes_per_sector > 1);
    assert_eq!(p.sectors_per_node, 0);
    assert_eq!(plan.metadata_bytes, 10 + 10 + 13 + 80);
    assert_eq!(plan.data_offset, SECTOR);
    assert_eq!(plan.total_bytes, 2 * SECTOR);

    let bytes = encode(&fields, 7, b"source", b"digest").expect("encode").expect("sidecar");
    assert_eq!(bytes.len(), plan.total_bytes);
    assert_eq!(bytes.len() % SECTOR, 0);
    assert_eq!(&bytes[..8], b"A3SDAN01");
    assert_eq!(read_u32(&bytes, 8), Some(2));
    assert_eq!(read_u64(&bytes, 32), Some(bytes.len() as u64));
    assert_eq!(read_u64(&bytes, 40), Some(7));
    assert_eq!(read_u32(&bytes, CHECKSUM_OFFSET), Some(crc32fast::hash(&bytes[FIXED_HEADER_BYTES..])));

    assert!(validates(Some(&bytes), &fields, 7, b"source", b"digest"));
    assert!(!validates(Some(&bytes), &fields, 8, b"source", b"digest"));
    assert!(!validates(Some(&bytes), &fields, 7, b"tamper", b"digest"));
    assert!(!validates(None, &fields, 7, b"source", b"digest"));

    let mut corrupted = bytes.clone();
    *corrupted.last_mut().expect("sidecar must not be empty") ^= 0x5a;
    assert!(!validates(Some(&corrupted), &fields, 7, b"source", b"digest"));
    assert!(!validates(Some(&bytes[..bytes.len() - 1]), &fields, 7, b"source", b"digest"));
    let mut trailing = bytes.clone();
    trailing.extend_from_slice(&[0_u8; SECTOR]);
    assert!(!validates(Some(&trailing), &fields, 7, b"source", b"digest"));

    let mut noncanonical = bytes.clone();
    noncanonical[p.data_offset + p.nodes_per_sector * p.record_bytes] = 1;
    let checksum = crc32fast::hash(&noncanonical[FIXED_HEADER_BYTES..]);
    put_u32(&mut noncanonical, CHECKSUM_OFFSET, checksum);
    assert!(!validates(Some(&noncanonical), &fields, 7, b"source", b"digest"));

    let reader = reader_for(&fields[0], &bytes);
    let first = reader.record_position(0).expect("first") as usize;
    let second = reader.record_position(1).expect("second") as usize;
    assert_eq!(first / SECTOR, second / SECTOR);
    assert_eq!(second - first, p.record_bytes);
}

#[test]
fn written_records_read_back_through_the_reader() {
    for (dimension, count) in [(2_usize, 64_u64), (1_024, 3)] {
        let field = vector_field(dimension, count);
        let bytes = encode(std::slice::from_ref(&field), 7, b"source", b"digest")
            .expect("encode")
            .expect("sidecar");
        let reader = reader_for(&field, &bytes);
        for (ordinal, node) in &field.nodes {
            let position = reader.record_position(*ordinal).expect("position");
            let (extent_offset, extent_bytes, record_offset) =
                reader.record_extent(position).expect("extent");
            let extent = &bytes[extent_offset as usize..extent_offset as usize + extent_bytes];
            let record = reader.record_in_extent(extent, record_offset).expect("record");
            let parsed = reader.parse_node(*ordinal, &record).expect("parse");
            assert_eq!(parsed.vector_bits, node.vector_bits);
            assert_eq!(parsed.neighbors, node.neighbors);
        }
    }
}

#[test]
fn oversized_records_start_on_sector_boundaries() {
    let fields = vec![vector_field(1_024, 3)];
    let plan = prepare(&fields, b"source", b"digest").expect("plan");
    let p = plan.fields[0];
    assert!(p.record_bytes > SECTOR);
    assert_eq!(p.nodes_per_sector, 0);
    assert!(p.sectors_per_node >= 2);
    let bytes = encode(&fields, 7, b"source", b"digest").expect("encode").expect("sidecar");
    let reader = reader_for(&fields[0], &bytes);
    for ordinal in 0..3 {
        assert_eq!(reader.record_position(ordinal).expect("position") as usize % SECTOR, 0);
    }
    assert!(validates(Some(&bytes), &fields, 7, b"source", b"digest"));
}

#[test]
fn quantized_fields_store_codes_and_codebook() {
    let codebook = Codebook {
        chunk_count: 2,
        centroid_count: 4,
        centroid_bits: vec![0.5_f32.to_bits(); 2 * 4 * 2],
    };
    let nodes = vec![
        (3, DiskNode { vector_bits: Vec::new(), code: vec![1, 3], neighbors: vec![9] }),
        (9, DiskNode { vector_bits: Vec::new(), code: vec![0, 2], neighbors: vec![3] }),
    ];
    let field = GraphField {
        name: b"pq".to_vec(),
        index_type: 6,
        dimension: 4,
        max_degree: 2,
        list_size: 8,
        alpha_bits: 1.0_f64.to_bits(),
        entry_ordinal: Some(3),
        codebook: Some(codebook),
        graph_ordinals: vec![3, 9],
        nodes,
    };
    let fields = vec![field];
    let plan = prepare(&fields, b"id", b"dg").expect("plan");
    assert_eq!(plan.fields[0].record_bytes, 40);
    assert_eq!(plan.metadata_bytes, 6 + 6 + 6 + 80 + 4 * 16);
    let bytes = encode(&fields, 1, b"id", b"dg").expect("encode").expect("sidecar");
    assert!(validates(Some(&bytes), &fields, 1, b"id", b"dg"));
    let reader = reader_for(&fields[0], &bytes);
    let position = reader.record_position(9).expect("position") as usize;
    let parsed = reader.parse_node(9, &bytes[position..position + 40]).expect("parse");
    assert_eq!(parsed.code, vec![0, 2]);
    assert_eq!(parsed.neighbors, vec![3]);
}

#[test]
fn no_graph_fields_need_no_sidecar() {
    assert!(encode(&[], 3, b"source", b"digest").expect("encode").is_none());
    assert!(validates(None, &[], 3, b"source", b"digest"));
    assert!(validates(Some(&[1, 2, 3]), &[], 3, b"source", b"digest"));
}

#[test]
fn inconsistent_graphs_are_refused() {
    let mut crowded = vector_field(2, 8);
    crowded.nodes[0].1.neighbors = vec![1, 2, 3, 4];
    assert_eq!(
        encode(std::slice::from_ref(&crowded), 1, b"s", b"d").err().expect("degree").code,
        ErrorCode::Internal
    );
    assert!(!validates(None, std::slice::from_ref(&crowded), 1, b"s", b"d"));

    let mut drifted = vector_field(2, 8);
    drifted.graph_ordinals.pop();
    assert_eq!(
        encode(std::slice::from_ref(&drifted), 1, b"s", b"d").err().expect("ordinals").code,
        ErrorCode::Internal
    );

    let mut short = vector_field(2, 8);
    short.nodes[3].1.vector_bits.pop();
    assert_eq!(
        encode(std::slice::from_ref(&short), 1, b"s", b"d").err().expect("dimension").code,
        ErrorCode::Internal
    );
}

#[test]
fn oversized_layouts_are_resource_errors() {
    let mut huge = vector_field(2, 4);
    huge.dimension = usize::MAX / 2;
    assert_eq!(
        prepare(std::slice::from_ref(&huge), b"s", b"d").err().expect("overflow").code,
        ErrorCode::ResourceExhausted
    );
    let mut too_many = vector_field(1_024, 1);
    let empty = DiskNode {
        vector_bits: Vec::new(),
        code: Vec::new(),
        neighbors: Vec::new(),
    };
    too_many.nodes = (0..70_000).map(|ordinal| (ordinal, empty.clone())).collect();
    too_many.graph_ordinals = (0..70_000).collect();
    assert_eq!(
        encode(std::slice::from_ref(&too_many), 1, b"s", b"d").err().expect("too large").code,
        ErrorCode::ResourceExhausted
    );
}
