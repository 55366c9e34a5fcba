use a3s_vec::index::hnsw::HnswIndex;
use a3s_vec::index::ivf::IvfIndex;
use a3s_vec::index::ordinal_map::OrdinalMap;
use a3s_vec::index::quantization::QuantizedVector;
use a3s_vec::index::rabitq::{packed_bytes, RabitqCode, RabitqQuantizer};
use a3s_vec::index::rabitq_index::{HnswRabitqIndex, IvfRabitqIndex};
use a3s_vec::index::rotation::RabitqRotation;
use a3s_vec::types::MetricType;
use roaring::RoaringTreemap;

const DIMENSION: usize = 3;
const BITS: usize = 2;

fn vectors(ordinals: &[u64]) -> OrdinalMap<QuantizedVector> {
    let mut map = OrdinalMap::new();
    for ordinal in ordinals {
        map.insert(*ordinal, QuantizedVector::F32(vec![0; DIMENSION]));
    }
    map
}

fn code(center: u32) -> RabitqCode {
    let rotation = RabitqRotation::new(DIMENSION).expect("rotation");
    RabitqCode {
        center,
        packed: vec![0; packed_bytes(rotation.padded_dimension(), BITS)],
        scale_bits: 0.5_f64.to_bits(),
        l2_add_bits: (-2.0_f64).to_bits(),
    }
}

fn quantizer(codes: Vec<(u64, RabitqCode)>) -> RabitqQuantizer {
    let mut map = OrdinalMap::new();
    for (ordinal, code) in codes {
        map.insert(ordinal, code);
    }
    RabitqQuantizer {
        metric: MetricType::L2,
        total_bits: BITS,
        requested_clusters: 2,
        sample_count: 0,
        rotation: RabitqRotation::new(DIMENSION).expect("rotation"),
        centroids: vec![vec![0; DIMENSION], vec![1.0_f32.to_bits(); DIMENSION]],
        codes: map,
    }
}

fn trained() -> RabitqQuantizer {
    quantizer(vec![(0, code(0)), (1, code(1)), (2, code(1))])
}

#[test]
fn a_trained_quantizer_validates() {
    assert!(trained().validates(&vectors(&[0, 1, 2]), DIMENSION, BITS, 2, 0, MetricType::L2));
}

#[test]
fn options_must_match() {
    let vectors = vectors(&[0, 1, 2]);
    let quantizer = trained();
    assert!(!quantizer.validates(&vectors, DIMENSION, BITS, 2, 0, MetricType::Ip));
    assert!(!quantizer.validates(&vectors, DIMENSION, 3, 2, 0, MetricType::L2));
    assert!(!quantizer.validates(&vectors, DIMENSION, BITS, 3, 0, MetricType::L2));
    assert!(!quantizer.validates(&vectors, DIMENSION, BITS, 2, 5, MetricType::L2));
    assert!(!quantizer.validates(&vectors, 4, BITS, 2, 0, MetricType::L2));
}

#[test]
fn codes_must_cover_the_vectors_and_fit() {
    let vectors = vectors(&[0, 1, 2]);
    assert!(!quantizer(vec![(0, code(0)), (1, code(1))]).validates(&vectors, DIMENSION, BITS, 2, 0, MetricType::L2));
    assert!(!quantizer(vec![(0, code(0)), (1, code(1)), (2, code(2))])
        .validates(&vectors, DIMENSION, BITS, 2, 0, MetricType::L2));
    let mut short = code(0);
    short.packed.pop();
    assert!(!quantizer(vec![(0, code(0)), (1, code(1)), (2, short)])
        .validates(&vectors, DIMENSION, BITS, 2, 0, MetricType::L2));
    let mut negative = code(0);
    negative.scale_bits = (-0.5_f64).to_bits();
    assert!(!quantizer(vec![(0, code(0)), (1, code(1)), (2, negative)])
        .validates(&vectors, DIMENSION, BITS, 2, 0, MetricType::L2));
    let mut infinite = code(0);
    infinite.l2_add_bits = f64::NEG_INFINITY.to_bits();
    assert!(!quantizer(vec![(0, code(0)), (1, code(1)), (2, infinite)])
        .validates(&vectors, DIMENSION, BITS, 2, 0, MetricType::L2));
}

#[test]
fn fewer_vectors_than_clusters_keep_one_centroid_each() {
    let one = vectors(&[0]);
    let mut quantizer = quantizer(vec![(0, code(0))]);
    assert!(!quantizer.validates(&one, DIMENSION, BITS, 2, 0, MetricType::L2));
    quantizer.centroids.pop();
    assert!(quantizer.validates(&one, DIMENSION, BITS, 2, 0, MetricType::L2));
}

#[test]
fn hnsw_rabitq_needs_both_parts_valid() {
    let vectors = vectors(&[0, 1, 2]);
    let mut base = OrdinalMap::new();
    base.insert(0, vec![1]);
    base.insert(1, vec![0, 2]);
    base.insert(2, vec![1]);
    let index = HnswRabitqIndex { graph: HnswIndex::from_parts(Some(0), vec![base], 12), quantizer: trained() };
    assert!(index.validates(&vectors, DIMENSION, 2, 12, BITS, 2, 0, MetricType::L2));
    assert!(!index.validates(&vectors, DIMENSION, 2, 13, BITS, 2, 0, MetricType::L2));
    assert!(!index.validates(&vectors, DIMENSION, 2, 12, BITS, 2, 1, MetricType::L2));
    assert_eq!(index.candidate_limit(None, 4, 100), 12);
}

#[test]
fn ivf_rabitq_needs_both_parts_valid() {
    let vectors = vectors(&[0, 1, 2]);
    let lists: Vec<RoaringTreemap> = vec![[0].into_iter().collect(), [1, 2].into_iter().collect()];
    let ivf = IvfIndex::from_parts(vec![vec![0; DIMENSION], vec![0; DIMENSION]], lists);
    let index = IvfRabitqIndex { ivf, quantizer: trained() };
    assert!(index.validates(&vectors, DIMENSION, 2, BITS, 0, MetricType::L2));
    assert!(!index.validates(&vectors, DIMENSION, 2, BITS, 0, MetricType::Cosine));
}
