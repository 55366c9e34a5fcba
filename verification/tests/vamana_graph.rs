use a3s_vec::index::ordinal_map::OrdinalMap;
use a3s_vec::index::quantization::QuantizedVector;
use a3s_vec::index::vamana::VamanaIndex;

const ALPHA: u64 = 0x3ff3_3333_3333_3333;

fn vectors(ordinals: &[u64]) -> OrdinalMap<QuantizedVector> {
    let mut map = OrdinalMap::new();
    for ordinal in ordinals {
        map.insert(*ordinal, QuantizedVector::Fp16(vec![0x3c00]));
    }
    map
}

fn graph(links: &[(u64, Vec<u64>)]) -> OrdinalMap<Vec<u64>> {
    let mut map = OrdinalMap::new();
    for (ordinal, neighbors) in links {
        map.insert(*ordinal, neighbors.clone());
    }
    map
}

fn triangle() -> VamanaIndex {
    VamanaIndex::from_parts(graph(&[(0, vec![1, 2]), (1, vec![0]), (2, vec![1])]), Some(1), 8, 2, ALPHA)
}

#[test]
fn the_alpha_constant_is_one_point_two() {
    assert_eq!(ALPHA, 1.2_f64.to_bits());
}

#[test]
fn a_consistent_vamana_graph_validates() {
    assert!(triangle().validates(&vectors(&[0, 1, 2]), 2, 8, ALPHA));
}

#[test]
fn parameters_must_match_and_be_usable() {
    let vectors = vectors(&[0, 1, 2]);
    assert!(!triangle().validates(&vectors, 3, 8, ALPHA));
    assert!(!triangle().validates(&vectors, 2, 9, ALPHA));
    assert!(!triangle().validates(&vectors, 2, 8, 1.3_f64.to_bits()));
    let small_alpha = VamanaIndex::from_parts(graph(&[(0, vec![])]), Some(0), 8, 2, 0.5_f64.to_bits());
    assert!(!small_alpha.validates(&vectors_of_one(), 2, 8, 0.5_f64.to_bits()));
    let infinite = VamanaIndex::from_parts(graph(&[(0, vec![])]), Some(0), 8, 2, f64::INFINITY.to_bits());
    assert!(!infinite.validates(&vectors_of_one(), 2, 8, f64::INFINITY.to_bits()));
    let one = VamanaIndex::from_parts(graph(&[(0, vec![])]), Some(0), 8, 2, 1.0_f64.to_bits());
    assert!(one.validates(&vectors_of_one(), 2, 8, 1.0_f64.to_bits()));
    let zero_degree = VamanaIndex::from_parts(graph(&[(0, vec![])]), Some(0), 8, 0, ALPHA);
    assert!(!zero_degree.validates(&vectors_of_one(), 0, 8, ALPHA));
}

fn vectors_of_one() -> OrdinalMap<QuantizedVector> {
    vectors(&[0])
}

#[test]
fn empty_vamana_graphs_need_no_entry() {
    let empty = vectors(&[]);
    assert!(VamanaIndex::from_parts(OrdinalMap::new(), None, 8, 2, ALPHA).validates(&empty, 2, 8, ALPHA));
    assert!(!VamanaIndex::from_parts(OrdinalMap::new(), Some(0), 8, 2, ALPHA).validates(&empty, 2, 8, ALPHA));
}

#[test]
fn nodes_must_match_vectors_and_links_stay_inside() {
    assert!(!triangle().validates(&vectors(&[0, 1, 2, 3]), 2, 8, ALPHA));
    let missing_entry = VamanaIndex::from_parts(graph(&[(0, vec![]), (1, vec![])]), Some(5), 8, 2, ALPHA);
    assert!(!missing_entry.validates(&vectors(&[0, 1]), 2, 8, ALPHA));
    let dangling = VamanaIndex::from_parts(graph(&[(0, vec![4]), (1, vec![])]), Some(0), 8, 2, ALPHA);
    assert!(!dangling.validates(&vectors(&[0, 1]), 2, 8, ALPHA));
    let repeated = VamanaIndex::from_parts(graph(&[(0, vec![1, 1]), (1, vec![])]), Some(0), 8, 2, ALPHA);
    assert!(!repeated.validates(&vectors(&[0, 1]), 2, 8, ALPHA));
    let wide = VamanaIndex::from_parts(graph(&[(0, vec![1, 2]), (1, vec![]), (2, vec![])]), Some(0), 8, 1, ALPHA);
    assert!(!wide.validates(&vectors(&[0, 1, 2]), 1, 8, ALPHA));
}

#[test]
fn limits_and_payload_follow_the_graph() {
    let index = triangle();
    assert_eq!(index.candidate_limit(None, 3, 100), 8);
    assert_eq!(index.candidate_limit(Some(2), 5, 100), 5);
    assert_eq!(index.candidate_limit(Some(50), 5, 10), 10);
    assert_eq!(index.estimated_payload_bytes(), 3 + 8 + 4 * 8);
    assert_eq!(index.neighbors(0), Some(&vec![1, 2]));
    assert_eq!(index.neighbors(7), None);
    assert_eq!(index.nodes().len(), 3);
    assert_eq!(index.entry_ordinal(), Some(1));
    assert_eq!(index.max_degree(), 2);
    assert_eq!(index.default_list_size(), 8);
    assert_eq!(index.alpha_bits(), ALPHA);
}
