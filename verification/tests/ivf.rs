use a3s_vec::index::ivf::IvfIndex;
use a3s_vec::index::ordinal_map::OrdinalMap;
use a3s_vec::index::quantization::QuantizedVector;
use roaring::RoaringTreemap;

fn bits(values: &[f32]) -> Vec<u32> {
    values.iter().map(|value| value.to_bits()).collect()
}

fn vectors(ordinals: &[u64]) -> OrdinalMap<QuantizedVector> {
    let mut map = OrdinalMap::new();
    for ordinal in ordinals {
        map.insert(*ordinal, QuantizedVector::F32(bits(&[1.0, 2.0])));
    }
    map
}

fn set(values: &[u64]) -> RoaringTreemap {
    values.iter().copied().collect()
}

fn members(bitmap: &RoaringTreemap) -> Vec<u64> {
    bitmap.iter().collect()
}

fn three_lists() -> IvfIndex {
    IvfIndex::from_parts(
        vec![bits(&[0.0, 0.0]), bits(&[1.0, 1.0]), bits(&[2.0, 2.0])],
        vec![set(&[0, 1]), set(&[2, 3]), set(&[4, 5])],
    )
}

#[test]
fn assignments_fill_primary_and_secondary_lists() {
    let index = IvfIndex::from_assignments(
        vec![bits(&[0.0]), bits(&[1.0])],
        &[(0, 0, None), (1, 1, Some(0)), (2, 1, None)],
    );
    assert_eq!(index.centroid_count(), 2);
    assert_eq!(members(&index.candidates(&[0], Some(1))), vec![0, 1]);
    assert_eq!(members(&index.candidates(&[1], Some(1))), vec![1, 2]);
}

#[test]
fn probe_count_defaults_to_the_square_root_ceiling() {
    let index = three_lists();
    assert_eq!(index.probe_count(None), 2);
    assert_eq!(index.probe_count(Some(0)), 1);
    assert_eq!(index.probe_count(Some(10)), 3);
    let empty = IvfIndex::from_parts(vec![], vec![]);
    assert_eq!(empty.probe_count(None), 0);
}

#[test]
fn candidates_union_the_probed_lists_in_rank_order() {
    let index = three_lists();
    assert_eq!(members(&index.candidates(&[2, 0, 1], None)), vec![0, 1, 4, 5]);
    assert_eq!(members(&index.candidates(&[1, 0, 2], Some(1))), vec![2, 3]);
    let empty = IvfIndex::from_parts(vec![], vec![]);
    assert!(empty.candidates(&[], None).is_empty());
}

#[test]
fn filtered_candidates_widen_until_enough_are_found() {
    let index = three_lists();
    let allowed = set(&[0, 1, 2, 3, 4, 5]);
    let excluded = set(&[1]);
    let found = index.filtered_candidates(&[0, 1, 2], Some(1), 3, &allowed, &excluded);
    assert_eq!(members(&found), vec![0, 2, 3]);
    let all = index.filtered_candidates(&[0, 1, 2], Some(1), 10, &allowed, &excluded);
    assert_eq!(members(&all), vec![0, 2, 3, 4, 5]);
    let narrow = index.filtered_candidates(&[2, 1, 0], Some(1), 1, &set(&[4]), &RoaringTreemap::new());
    assert_eq!(members(&narrow), vec![4]);
    assert!(index.filtered_candidates(&[0, 1, 2], None, 1, &RoaringTreemap::new(), &excluded).is_empty());
}

#[test]
fn validation_checks_shape_and_assignment_counts() {
    let vectors = vectors(&[0, 1, 2, 3, 4, 5]);
    let index = three_lists();
    assert!(index.validates(&vectors, 2, 3, false));
    assert!(!index.validates(&vectors, 3, 3, false));
    assert!(!index.validates(&vectors, 2, 2, false));
    assert!(!index.validates(&vectors, 2, 3, true));
    let missing = IvfIndex::from_parts(
        vec![bits(&[0.0, 0.0]), bits(&[1.0, 1.0]), bits(&[2.0, 2.0])],
        vec![set(&[0, 1]), set(&[2, 3]), set(&[4])],
    );
    assert!(!missing.validates(&vectors, 2, 3, false));
    let stray = IvfIndex::from_parts(
        vec![bits(&[0.0, 0.0]), bits(&[1.0, 1.0]), bits(&[2.0, 2.0])],
        vec![set(&[0, 1]), set(&[2, 3]), set(&[4, 5, 9])],
    );
    assert!(!stray.validates(&vectors, 2, 3, false));
    let nan = IvfIndex::from_parts(
        vec![bits(&[0.0, f32::NAN]), bits(&[1.0, 1.0]), bits(&[2.0, 2.0])],
        vec![set(&[0, 1]), set(&[2, 3]), set(&[4, 5])],
    );
    assert!(!nan.validates(&vectors, 2, 3, false));
}

#[test]
fn soar_indexes_keep_every_vector_in_two_lists() {
    let vectors = vectors(&[0, 1, 2]);
    let index = IvfIndex::from_parts(
        vec![bits(&[0.0]), bits(&[1.0])],
        vec![set(&[0, 1, 2]), set(&[0, 1, 2])],
    );
    assert!(index.validates(&vectors, 1, 2, true));
    assert!(!index.validates(&vectors, 1, 2, false));
    let single = IvfIndex::from_parts(vec![bits(&[0.0])], vec![set(&[0, 1, 2])]);
    assert!(single.validates(&vectors, 1, 1, true));
}

#[test]
fn empty_vector_maps_need_no_lists() {
    let empty = vectors(&[]);
    assert!(IvfIndex::from_parts(vec![], vec![]).validates(&empty, 2, 3, false));
    assert!(!three_lists().validates(&empty, 2, 3, false));
}

#[test]
fn payload_counts_centroids_and_encoded_lists() {
    let index = three_lists();
    let lists: usize = [set(&[0, 1]), set(&[2, 3]), set(&[4, 5])]
        .iter()
        .map(RoaringTreemap::serialized_size)
        .sum();
    assert_eq!(index.estimated_payload_bytes(), 3 * 2 * 4 + lists);
}
