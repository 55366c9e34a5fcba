use a3s_vec::index::diskann_index::DiskannIndex;
use a3s_vec::index::flat::FlatIndex;
use a3s_vec::index::hnsw::HnswIndex;
use a3s_vec::index::ivf::IvfIndex;
use a3s_vec::index::ordinal_map::OrdinalMap;
use a3s_vec::index::params::{
    boolean_param, finite_param_bits, nonnegative_param, positive_param, validate_vector_kind,
    IndexParams, IndexType, ParamValue,
};
use a3s_vec::index::product_quantization::{ProductCodebook, ProductQuantizer};
use a3s_vec::index::quantization::QuantizedVector;
use a3s_vec::index::rabitq::RabitqQuantizer;
use a3s_vec::index::rabitq_index::{HnswRabitqIndex, IvfRabitqIndex};
use a3s_vec::index::rotation::RabitqRotation;
use a3s_vec::index::vamana::VamanaIndex;
use a3s_vec::index::vector::{VectorIndex, VectorIndexBase, VectorIndexKind};
use a3s_vec::types::MetricType;
use roaring::RoaringTreemap;
use std::collections::BTreeMap;
use std::sync::Arc;

fn unsigned(value: u64) -> ParamValue {
    ParamValue { unsigned: Some(value), float_bits: Some((value as f64).to_bits()), flag: None }
}

fn number(value: f64) -> ParamValue {
    ParamValue { unsigned: None, float_bits: Some(value.to_bits()), flag: None }
}

fn flag(value: bool) -> ParamValue {
    ParamValue { unsigned: None, float_bits: None, flag: Some(value) }
}

fn params(index_type: IndexType, entries: &[(&str, ParamValue)]) -> IndexParams {
    IndexParams {
        index_type,
        metric_type: MetricType::L2,
        params: entries.iter().map(|(name, value)| (name.to_string(), *value)).collect(),
    }
}

fn empty_index(kind: VectorIndexKind) -> VectorIndex {
    let base = VectorIndexBase {
        vectors: OrdinalMap::new(),
        vector_ordinals: RoaringTreemap::new(),
        kind,
    };
    VectorIndex::from_parts(1, Arc::new(base), BTreeMap::new(), RoaringTreemap::new(), RoaringTreemap::new())
}

fn check(index: &VectorIndex, p: &IndexParams) -> bool {
    validate_vector_kind(index, p, 4, &OrdinalMap::new())
}

/// Each case drops one parameter or changes the type; none may validate.
fn assert_each_part_is_needed(index: &VectorIndex, index_type: IndexType, other: IndexType, good: &[(&str, ParamValue)]) {
    assert!(check(index, &params(index_type, good)));
    assert!(!check(index, &params(other, good)));
    for skipped in 0..good.len() {
        let partial: Vec<(&str, ParamValue)> =
            good.iter().enumerate().filter(|(i, _)| *i != skipped).map(|(_, entry)| *entry).collect();
        assert!(!check(index, &params(index_type, &partial)), "{} is required", good[skipped].0);
    }
}

fn vamana() -> VamanaIndex {
    VamanaIndex::from_parts(OrdinalMap::new(), None, 64, 16, 1.2_f64.to_bits())
}

fn rabitq(clusters: usize) -> RabitqQuantizer {
    RabitqQuantizer {
        metric: MetricType::L2,
        total_bits: 2,
        requested_clusters: clusters,
        sample_count: 0,
        rotation: RabitqRotation::new(4).expect("rotation"),
        centroids: Vec::new(),
        codes: OrdinalMap::new(),
    }
}

#[test]
fn parameters_are_read_by_their_first_entry() {
    let p = params(
        IndexType::Hnsw,
        &[
            ("m", unsigned(16)),
            ("zero", unsigned(0)),
            ("m", unsigned(99)),
            ("flag", flag(true)),
            ("alpha", number(1.2)),
            ("nan", number(f64::NAN)),
            ("infinite", number(f64::INFINITY)),
        ],
    );
    assert_eq!(positive_param(&p, "m"), Some(16));
    assert_eq!(positive_param(&p, "zero"), None);
    assert_eq!(nonnegative_param(&p, "zero"), Some(0));
    assert_eq!(positive_param(&p, "flag"), None);
    assert_eq!(positive_param(&p, "missing"), None);
    assert_eq!(boolean_param(&p, "flag"), Some(true));
    assert_eq!(boolean_param(&p, "alpha"), None);
    assert_eq!(finite_param_bits(&p, "alpha"), Some(1.2_f64.to_bits()));
    assert_eq!(finite_param_bits(&p, "m"), Some(16.0_f64.to_bits()));
    assert_eq!(finite_param_bits(&p, "nan"), None);
    assert_eq!(finite_param_bits(&p, "infinite"), None);
}

#[test]
fn a_flat_index_validates_only_against_flat_parameters() {
    let index = empty_index(VectorIndexKind::Flat(FlatIndex));
    assert!(check(&index, &params(IndexType::Flat, &[])));
    assert!(!check(&index, &params(IndexType::Hnsw, &[])));
}

#[test]
fn an_hnsw_graph_validates_only_against_hnsw_parameters_it_was_built_with() {
    let index = empty_index(VectorIndexKind::Hnsw(HnswIndex::from_parts(None, vec![OrdinalMap::new()], 32)));
    let good = [("m", unsigned(16)), ("ef_construction", unsigned(32))];
    assert_each_part_is_needed(&index, IndexType::Hnsw, IndexType::Ivf, &good);
    let zero_m = [("m", unsigned(0)), ("ef_construction", unsigned(32))];
    assert!(!check(&index, &params(IndexType::Hnsw, &zero_m)));
    let other_ef = [("m", unsigned(16)), ("ef_construction", unsigned(64))];
    assert!(!check(&index, &params(IndexType::Hnsw, &other_ef)));
}

#[test]
fn ivf_lists_need_a_list_count_and_a_soar_flag() {
    let index = empty_index(VectorIndexKind::Ivf(IvfIndex::from_parts(Vec::new(), Vec::new())));
    let good = [("n_list", unsigned(4)), ("use_soar", flag(false))];
    assert_each_part_is_needed(&index, IndexType::Ivf, IndexType::Hnsw, &good);
    let soar_number = [("n_list", unsigned(4)), ("use_soar", unsigned(1))];
    assert!(!check(&index, &params(IndexType::Ivf, &soar_number)));
}

#[test]
fn rabitq_kinds_check_their_graph_or_lists_and_their_codes() {
    let hnsw = empty_index(VectorIndexKind::HnswRabitq(HnswRabitqIndex {
        graph: HnswIndex::from_parts(None, vec![OrdinalMap::new()], 32),
        quantizer: rabitq(3),
    }));
    let good = [
        ("m", unsigned(16)),
        ("ef_construction", unsigned(32)),
        ("total_bits", unsigned(2)),
        ("num_clusters", unsigned(3)),
        ("sample_count", unsigned(0)),
    ];
    assert_each_part_is_needed(&hnsw, IndexType::HnswRabitq, IndexType::Hnsw, &good);
    let other_bits = [
        ("m", unsigned(16)),
        ("ef_construction", unsigned(32)),
        ("total_bits", unsigned(4)),
        ("num_clusters", unsigned(3)),
        ("sample_count", unsigned(0)),
    ];
    assert!(!check(&hnsw, &params(IndexType::HnswRabitq, &other_bits)));

    let ivf = empty_index(VectorIndexKind::IvfRabitq(IvfRabitqIndex {
        ivf: IvfIndex::from_parts(Vec::new(), Vec::new()),
        quantizer: rabitq(5),
    }));
    let good = [("n_list", unsigned(5)), ("total_bits", unsigned(2)), ("sample_count", unsigned(0))];
    assert_each_part_is_needed(&ivf, IndexType::IvfRabitq, IndexType::Ivf, &good);
    let other_lists = [("n_list", unsigned(4)), ("total_bits", unsigned(2)), ("sample_count", unsigned(0))];
    assert!(!check(&ivf, &params(IndexType::IvfRabitq, &other_lists)));
}

#[test]
fn vamana_graphs_need_every_option_and_a_finite_matching_alpha() {
    let index = empty_index(VectorIndexKind::Vamana(vamana()));
    let good = [
        ("max_degree", unsigned(16)),
        ("search_list_size", unsigned(64)),
        ("alpha", number(1.2)),
        ("max_occlusion", unsigned(8)),
        ("saturate", flag(true)),
    ];
    assert_each_part_is_needed(&index, IndexType::Vamana, IndexType::Diskann, &good);
    let mut nan = good;
    nan[2] = ("alpha", number(f64::NAN));
    assert!(!check(&index, &params(IndexType::Vamana, &nan)));
    let mut other_alpha = good;
    other_alpha[2] = ("alpha", number(1.3));
    assert!(!check(&index, &params(IndexType::Vamana, &other_alpha)));
}

#[test]
fn diskann_needs_a_quantizer_exactly_when_it_has_pq_chunks() {
    let plain = empty_index(VectorIndexKind::Diskann(DiskannIndex { graph: vamana(), pq: None }));
    let no_pq = [
        ("max_degree", unsigned(16)),
        ("list_size", unsigned(64)),
        ("pq_chunk_num", unsigned(0)),
        ("alpha", number(1.2)),
    ];
    assert_each_part_is_needed(&plain, IndexType::Diskann, IndexType::Vamana, &no_pq);
    let with_pq = [
        ("max_degree", unsigned(16)),
        ("list_size", unsigned(64)),
        ("pq_chunk_num", unsigned(2)),
        ("alpha", number(1.2)),
    ];
    assert!(!check(&plain, &params(IndexType::Diskann, &with_pq)));

    let quantized = empty_index(VectorIndexKind::Diskann(DiskannIndex {
        graph: vamana(),
        pq: Some(ProductQuantizer {
            codebook: ProductCodebook { dimension: 4, chunk_offsets: vec![0, 2, 4], centroids: vec![Vec::new(), Vec::new()] },
            codes: OrdinalMap::new(),
        }),
    }));
    assert!(check(&quantized, &params(IndexType::Diskann, &with_pq)));
    assert!(!check(&quantized, &params(IndexType::Diskann, &no_pq)));
}

fn coordinates(values: &[f32]) -> Vec<u32> {
    values.iter().map(|value| value.to_bits()).collect()
}

/// Two vectors of four coordinates in two chunks of two, two centroids a
/// chunk, and the codes of both vectors.
fn trained() -> (OrdinalMap<QuantizedVector>, ProductQuantizer) {
    let mut vectors = OrdinalMap::new();
    vectors.insert(0, QuantizedVector::F32(coordinates(&[0.0, 0.0, 1.0, 1.0])));
    vectors.insert(3, QuantizedVector::F32(coordinates(&[1.0, 1.0, 0.0, 0.0])));
    let mut codes = OrdinalMap::new();
    codes.insert(0, vec![0, 1]);
    codes.insert(3, vec![1, 0]);
    let chunk = vec![coordinates(&[0.0, 0.0]), coordinates(&[1.0, 1.0])];
    let pq = ProductQuantizer {
        codebook: ProductCodebook { dimension: 4, chunk_offsets: vec![0, 2, 4], centroids: vec![chunk.clone(), chunk] },
        codes,
    };
    (vectors, pq)
}

#[test]
fn stored_codes_must_be_the_codes_of_the_vectors() {
    let (vectors, pq) = trained();
    assert!(pq.validates(&vectors, 4, 2, &pq.codes));
    let mut wrong = OrdinalMap::new();
    wrong.insert(0, vec![0, 1]);
    wrong.insert(3, vec![1, 1]);
    assert!(!pq.validates(&vectors, 4, 2, &wrong));
    let mut missing = OrdinalMap::new();
    missing.insert(0, vec![0, 1]);
    assert!(!pq.validates(&vectors, 4, 2, &missing));
    assert!(!pq.validates(&vectors, 4, 1, &pq.codes));
    assert!(!pq.validates(&vectors, 6, 2, &pq.codes));
}

#[test]
fn codebooks_need_balanced_chunks_and_finite_centroids() {
    let (_, pq) = trained();
    assert!(pq.codebook.validates(4, 2, 2));
    assert!(!pq.codebook.validates(4, 2, 3));
    let mut skewed = trained().1.codebook;
    skewed.chunk_offsets = vec![0, 1, 4];
    assert!(!skewed.validates(4, 2, 2));
    let mut infinite = trained().1.codebook;
    infinite.centroids[1][0][1] = f32::INFINITY.to_bits();
    assert!(!infinite.validates(4, 2, 2));
    let three = ProductCodebook {
        dimension: 5,
        chunk_offsets: vec![0, 1, 3, 5],
        centroids: vec![vec![coordinates(&[0.0])], vec![coordinates(&[0.0, 0.0])], vec![coordinates(&[0.0, 0.0])]],
    };
    assert!(three.validates(5, 3, 1));
}
