use a3s_vec::index::flat::FlatIndex;
use a3s_vec::index::hnsw::HnswIndex;
use a3s_vec::index::ordinal_map::OrdinalMap;

fn layer(entries: Vec<(u64, Vec<u64>)>) -> OrdinalMap<Vec<u64>> {
    OrdinalMap::from_entries(entries)
}

#[test]
fn hnsw_candidate_limit_is_clamped_by_topk_and_population() {
    let index = HnswIndex::from_parts(None, Vec::new(), 64);
    assert_eq!(index.candidate_limit(None, 10, 1_000), 64);
    assert_eq!(index.candidate_limit(Some(16), 10, 1_000), 16);
    assert_eq!(index.candidate_limit(Some(4), 10, 1_000), 10);
    assert_eq!(index.candidate_limit(None, 10, 20), 20);
    assert_eq!(index.candidate_limit(Some(100), 200, 50), 50);
}

#[test]
fn hnsw_payload_counts_slots_neighbours_and_entry() {
    let empty = HnswIndex::from_parts(None, Vec::new(), 8);
    assert_eq!(empty.estimated_payload_bytes(), 0);
    let base = layer(vec![(0, vec![1, 2]), (1, vec![0]), (2, vec![0, 1])]);
    let upper = layer(vec![(2, vec![])]);
    let index = HnswIndex::from_parts(Some(2), vec![base, upper], 8);
    assert_eq!(index.estimated_payload_bytes(), 8 + 3 + 5 * 8 + 3);
}

#[test]
fn flat_index_has_no_payload() {
    assert_eq!(FlatIndex::build(), FlatIndex);
    assert_eq!(FlatIndex::estimated_payload_bytes(), 0);
}
