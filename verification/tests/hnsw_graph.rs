use a3s_vec::index::hnsw::HnswIndex;
use a3s_vec::index::ordinal_map::OrdinalMap;
use a3s_vec::index::quantization::QuantizedVector;

fn vectors(ordinals: &[u64]) -> OrdinalMap<QuantizedVector> {
    let mut map = OrdinalMap::new();
    for ordinal in ordinals {
        map.insert(*ordinal, QuantizedVector::F32(vec![1.0_f32.to_bits(), 0]));
    }
    map
}

fn layer(links: &[(u64, Vec<u64>)]) -> OrdinalMap<Vec<u64>> {
    let mut map = OrdinalMap::new();
    for (ordinal, neighbors) in links {
        map.insert(*ordinal, neighbors.clone());
    }
    map
}

fn two_layer_graph() -> HnswIndex {
    let base = layer(&[(0, vec![1, 2]), (1, vec![0]), (2, vec![0, 1])]);
    let upper = layer(&[(0, vec![2]), (2, vec![0])]);
    HnswIndex::from_parts(Some(2), vec![base, upper], 16)
}

#[test]
fn a_consistent_graph_validates() {
    let graph = two_layer_graph();
    assert!(graph.validates(&vectors(&[0, 1, 2]), 2, 16));
}

#[test]
fn build_parameters_must_match() {
    let graph = two_layer_graph();
    let vectors = vectors(&[0, 1, 2]);
    assert!(!graph.validates(&vectors, 2, 8));
    assert!(!graph.validates(&vectors, 0, 16));
    assert!(!graph.validates(&vectors, 2, 0));
}

#[test]
fn base_layer_must_cover_exactly_the_vectors() {
    let graph = two_layer_graph();
    assert!(!graph.validates(&vectors(&[0, 1]), 2, 16));
    assert!(!graph.validates(&vectors(&[0, 1, 2, 3]), 2, 16));
}

#[test]
fn empty_graphs_need_no_entry_and_one_empty_layer() {
    let empty = vectors(&[]);
    assert!(HnswIndex::from_parts(None, vec![OrdinalMap::new()], 16).validates(&empty, 2, 16));
    assert!(!HnswIndex::from_parts(Some(0), vec![OrdinalMap::new()], 16).validates(&empty, 2, 16));
    assert!(!HnswIndex::from_parts(None, vec![], 16).validates(&empty, 2, 16));
    assert!(!HnswIndex::from_parts(None, vec![OrdinalMap::new(), OrdinalMap::new()], 16)
        .validates(&empty, 2, 16));
}

#[test]
fn entry_must_sit_on_the_top_layer() {
    let base = layer(&[(0, vec![1, 2]), (1, vec![0]), (2, vec![0, 1])]);
    let upper = layer(&[(0, vec![2]), (2, vec![0])]);
    let graph = HnswIndex::from_parts(Some(1), vec![base, upper], 16);
    assert!(!graph.validates(&vectors(&[0, 1, 2]), 2, 16));
    let base = layer(&[(0, vec![1]), (1, vec![0])]);
    assert!(!HnswIndex::from_parts(None, vec![base], 16).validates(&vectors(&[0, 1]), 2, 16));
}

#[test]
fn upper_layers_must_nest_in_lower_ones() {
    let base = layer(&[(0, vec![1]), (1, vec![0])]);
    let upper = layer(&[(0, vec![3]), (3, vec![0])]);
    let graph = HnswIndex::from_parts(Some(0), vec![base, upper], 16);
    assert!(!graph.validates(&vectors(&[0, 1]), 2, 16));
}

#[test]
fn links_respect_degree_self_membership_and_uniqueness() {
    let ok = layer(&[(0, vec![1, 2, 3, 4]), (1, vec![0]), (2, vec![0]), (3, vec![0]), (4, vec![0])]);
    let vectors = vectors(&[0, 1, 2, 3, 4]);
    assert!(HnswIndex::from_parts(Some(0), vec![ok], 16).validates(&vectors, 2, 16));
    let too_many = layer(&[(0, vec![1, 2, 3, 4]), (1, vec![0]), (2, vec![0]), (3, vec![0]), (4, vec![0])]);
    assert!(!HnswIndex::from_parts(Some(0), vec![too_many], 16).validates(&vectors, 1, 16));
    let self_link = layer(&[(0, vec![0]), (1, vec![]), (2, vec![]), (3, vec![]), (4, vec![])]);
    assert!(!HnswIndex::from_parts(Some(0), vec![self_link], 16).validates(&vectors, 2, 16));
    let dangling = layer(&[(0, vec![7]), (1, vec![]), (2, vec![]), (3, vec![]), (4, vec![])]);
    assert!(!HnswIndex::from_parts(Some(0), vec![dangling], 16).validates(&vectors, 2, 16));
    let repeated = layer(&[(0, vec![1, 1]), (1, vec![]), (2, vec![]), (3, vec![]), (4, vec![])]);
    assert!(!HnswIndex::from_parts(Some(0), vec![repeated], 16).validates(&vectors, 2, 16));
}

#[test]
fn upper_layers_allow_m_links_and_the_base_twice_that() {
    let base = layer(&[(0, vec![1, 2]), (1, vec![0, 2]), (2, vec![0, 1])]);
    let upper = layer(&[(0, vec![1, 2]), (1, vec![0]), (2, vec![0])]);
    let graph = HnswIndex::from_parts(Some(0), vec![base, upper], 16);
    assert!(!graph.validates(&vectors(&[0, 1, 2]), 1, 16));
    assert!(graph.validates(&vectors(&[0, 1, 2]), 2, 16));
}

#[test]
fn inconsistent_vector_maps_are_rejected() {
    let mut slots = Vec::new();
    slots.push(Some(QuantizedVector::F32(vec![0])));
    let broken = OrdinalMap::from_parts(slots, 2);
    let graph = HnswIndex::from_parts(Some(0), vec![layer(&[(0, vec![])])], 16);
    assert!(!graph.validates(&broken, 2, 16));
}
