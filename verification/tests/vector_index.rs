use a3s_vec::index::hnsw::HnswIndex;
use a3s_vec::index::ordinal_map::OrdinalMap;
use a3s_vec::index::quantization::QuantizedVector;
use a3s_vec::index::vector::{
    candidate_set_is_sufficient, VectorIndex, VectorIndexBase, VectorIndexKind,
};
use roaring::RoaringTreemap;
use std::collections::BTreeMap;
use std::sync::Arc;

fn vector() -> QuantizedVector {
    QuantizedVector::F32(vec![1.0_f32.to_bits()])
}

fn set(values: &[u64]) -> RoaringTreemap {
    values.iter().copied().collect()
}

fn members(bitmap: &RoaringTreemap) -> Vec<u64> {
    bitmap.iter().collect()
}

/// Base ordinals 0..=4; ordinal 1 updated and 3 deleted since the build,
/// ordinal 7 added.
fn generation() -> VectorIndex {
    let mut vectors = OrdinalMap::new();
    for ordinal in 0..5 {
        vectors.insert(ordinal, vector());
    }
    let base = VectorIndexBase {
        vectors,
        vector_ordinals: set(&[0, 1, 2, 3, 4]),
        kind: VectorIndexKind::Hnsw(HnswIndex::from_parts(None, vec![OrdinalMap::new()], 16)),
    };
    let mut delta = BTreeMap::new();
    delta.insert(1, vector());
    delta.insert(7, vector());
    VectorIndex::from_parts(9, Arc::new(base), delta, set(&[1, 7]), set(&[1, 3]))
}

#[test]
fn live_count_hides_tombstones_and_adds_the_delta() {
    let index = generation();
    assert_eq!(index.source_revision(), 9);
    assert_eq!(index.live_vector_count(), 5);
    assert_eq!(index.base().vectors.len(), 5);
}

#[test]
fn eligible_counts_follow_the_filter() {
    let index = generation();
    let allowed = set(&[0, 1, 3, 7, 9]);
    assert_eq!(index.base_eligible_vector_count(&allowed), 1);
    assert_eq!(index.eligible_vector_count(&allowed), 3);
    assert_eq!(index.eligible_vector_count(&set(&[])), 0);
}

#[test]
fn overlay_counts_tombstones_and_new_vectors() {
    let index = generation();
    assert_eq!(index.overlay_len(), 3);
    assert!(!index.should_compact());
}

#[test]
fn merged_candidates_shadow_tombstones_with_the_delta() {
    let index = generation();
    assert_eq!(members(&index.merge_candidates(set(&[0, 1, 2, 3]), None)), vec![0, 1, 2, 7]);
    let allowed = set(&[1, 2, 3]);
    assert_eq!(members(&index.merge_candidates(set(&[0, 1, 2, 3]), Some(&allowed))), vec![1, 2]);
}

#[test]
fn candidate_sets_suffice_for_the_smaller_of_topk_and_eligible() {
    let ids = set(&[1, 2, 3]);
    assert!(candidate_set_is_sufficient(&ids, false, 10, 10));
    assert!(candidate_set_is_sufficient(&ids, true, 3, 10));
    assert!(!candidate_set_is_sufficient(&ids, true, 4, 10));
    assert!(candidate_set_is_sufficient(&ids, true, 10, 2));
}

#[test]
fn vector_changes_shadow_the_base_in_the_overlay() {
    let index = generation();
    let next = index.apply_vector_changes(
        10,
        vec![(2, None), (7, None), (8, Some(vector())), (3, Some(vector())), (8, None)],
    );
    assert_eq!(next.source_revision(), 10);
    assert_eq!(next.base().vectors.len(), 5);
    assert_eq!(next.live_vector_count(), 4);
    assert_eq!(members(&next.merge_candidates(set(&[0, 1, 2, 3, 4]), None)), vec![0, 1, 3, 4]);
    assert_eq!(next.overlay_len(), 3);
    assert_eq!(index.live_vector_count(), 5);
}

#[test]
fn each_ordinal_shows_the_vector_of_its_last_change() {
    let index = generation();
    let other = QuantizedVector::F32(vec![2.0_f32.to_bits()]);
    assert_eq!(index.visible(1), Some(&vector()));
    assert_eq!(index.visible(3), None);
    assert_eq!(index.visible(0), Some(&vector()));
    let next = index.apply_vector_changes(
        10,
        vec![(0, Some(other.clone())), (4, Some(other.clone())), (4, None), (9, Some(other.clone()))],
    );
    assert_eq!(next.visible(0), Some(&other));
    assert_eq!(next.visible(4), None);
    assert_eq!(next.visible(9), Some(&other));
    assert_eq!(next.visible(2), Some(&vector()));
    assert_eq!(next.visible(3), None);
    assert_eq!(next.visible(7), Some(&vector()));
}
