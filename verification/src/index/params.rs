//! The parameters a vector index was built with, as far as checking a
//! cached index against them reads them, and that check.

use crate::index::ordinal_map::OrdinalMap;
use crate::index::vector::{VectorIndex, VectorIndexKind};
use crate::text::{compare_text, TextOrder};
use crate::types::MetricType;
use vstd::prelude::*;

verus! {

/// The kind of ANN index a field asks for.
#[derive(Debug, Clone, Copy, PartialEq, Eq, Structural)]
pub enum IndexType {
    Flat,
    Hnsw,
    HnswRabitq,
    Ivf,
    IvfRabitq,
    Diskann,
    Vamana,
}

/// A parameter value as the check reads it: as a non-negative integer,
/// as a number (an `f64` bit pattern) and as a boolean, each where the
/// value reads that way.
#[derive(Debug, Clone, Copy, PartialEq, Eq)]
pub struct ParamValue {
    pub unsigned: Option<u64>,
    pub float_bits: Option<u64>,
    pub flag: Option<bool>,
}

/// An index type and metric with the named parameters.
#[derive(Debug, Clone)]
pub struct IndexParams {
    pub index_type: IndexType,
    pub metric_type: MetricType,
    pub params: Vec<(String, ParamValue)>,
}

/// The value of the first parameter named `name`.
pub open spec fn param_lookup(entries: Seq<(String, ParamValue)>, name: Seq<char>) -> Option<ParamValue>
    decreases entries.len(),
{
    if entries.len() == 0 {
        None
    } else if entries[0].0@ == name {
        Some(entries[0].1)
    } else {
        param_lookup(entries.drop_first(), name)
    }
}

/// A non-negative integer parameter that fits `usize`.
pub open spec fn spec_nonnegative_param(entries: Seq<(String, ParamValue)>, name: Seq<char>) -> Option<usize> {
    match param_lookup(entries, name) {
        Some(value) => match value.unsigned {
            Some(v) => if v <= usize::MAX {
                Some(v as usize)
            } else {
                None
            },
            None => None,
        },
        None => None,
    }
}

/// A positive integer parameter that fits `usize`.
pub open spec fn spec_positive_param(entries: Seq<(String, ParamValue)>, name: Seq<char>) -> Option<usize> {
    match spec_nonnegative_param(entries, name) {
        Some(v) => if v > 0 {
            Some(v)
        } else {
            None
        },
        None => None,
    }
}

/// Whether `bits` is the pattern of a finite `f64`: its exponent bits are
/// not all ones.
pub open spec fn f64_pattern_finite(bits: u64) -> bool {
    bits % 0x8000_0000_0000_0000 < 0x7ff0_0000_0000_0000
}

/// A finite numeric parameter, as its `f64` bit pattern.
pub open spec fn spec_finite_param_bits(entries: Seq<(String, ParamValue)>, name: Seq<char>) -> Option<u64> {
    match param_lookup(entries, name) {
        Some(value) => match value.float_bits {
            Some(b) => if f64_pattern_finite(b) {
                Some(b)
            } else {
                None
            },
            None => None,
        },
        None => None,
    }
}

/// A boolean parameter.
pub open spec fn spec_boolean_param(entries: Seq<(String, ParamValue)>, name: Seq<char>) -> Option<bool> {
    match param_lookup(entries, name) {
        Some(value) => value.flag,
        None => None,
    }
}

/// The value of the first parameter named `name`.
pub fn lookup_param(entries: &Vec<(String, ParamValue)>, name: &str) -> (r: Option<ParamValue>)
    ensures
        r == param_lookup(entries@, name@),
{
    let mut i: usize = 0;
    assert(entries@.subrange(0, entries@.len() as int) =~= entries@);
    while i < entries.len()
        invariant
            i <= entries@.len(),
            param_lookup(entries@, name@) == param_lookup(entries@.subrange(i as int, entries@.len() as int), name@),
        decreases entries@.len() - i,
    {
        proof {
            let rest = entries@.subrange(i as int, entries@.len() as int);
            assert(rest.drop_first() =~= entries@.subrange(i + 1, entries@.len() as int));
        }
        match compare_text(entries[i].0.as_str(), name) {
            TextOrder::Equal => {
                return Some(entries[i].1);
            },
            _ => {},
        }
        i = i + 1;
    }
    assert(entries@.subrange(i as int, entries@.len() as int).len() == 0);
    None
}

/// A non-negative integer parameter that fits `usize`.
pub fn nonnegative_param(params: &IndexParams, name: &str) -> (r: Option<usize>)
    ensures
        r == spec_nonnegative_param(params.params@, name@),
{
    match lookup_param(&params.params, name) {
        Some(value) => match value.unsigned {
            Some(v) => {
                if v <= usize::MAX as u64 {
                    Some(v as usize)
                } else {
                    None
                }
            },
            None => None,
        },
        None => None,
    }
}

/// A positive integer parameter that fits `usize`.
pub fn positive_param(params: &IndexParams, name: &str) -> (r: Option<usize>)
    ensures
        r == spec_positive_param(params.params@, name@),
{
    match nonnegative_param(params, name) {
        Some(v) => {
            if v > 0 {
                Some(v)
            } else {
                None
            }
        },
        None => None,
    }
}

/// A finite numeric parameter, as its `f64` bit pattern.
pub fn finite_param_bits(params: &IndexParams, name: &str) -> (r: Option<u64>)
    ensures
        r == spec_finite_param_bits(params.params@, name@),
{
    match lookup_param(&params.params, name) {
        Some(value) => match value.float_bits {
            Some(b) => {
                if b % 0x8000_0000_0000_0000 < 0x7ff0_0000_0000_0000 {
                    Some(b)
                } else {
                    None
                }
            },
            None => None,
        },
        None => None,
    }
}

/// A boolean parameter.
pub fn boolean_param(params: &IndexParams, name: &str) -> (r: Option<bool>)
    ensures
        r == spec_boolean_param(params.params@, name@),
{
    match lookup_param(&params.params, name) {
        Some(value) => value.flag,
        None => None,
    }
}

/// Whether the ANN structure of `index` was built as `params` ask: the
/// index type matches the structure, every parameter the structure reads
/// is present with a usable value (positive sizes and counts, a
/// non-negative sample count, PQ chunk count and occlusion bound, a finite
/// pruning factor, boolean switches), and the structure validates against
/// them. A Vamana graph records no occlusion bound or saturation switch,
/// so those two are only required to be present. `recoded` is used only
/// for a DiskANN quantizer (see `ProductQuantizer::spec_validates`).
pub open spec fn spec_validate_vector_kind(
    index: VectorIndex,
    params: IndexParams,
    dimension: usize,
    recoded: OrdinalMap<Vec<u8>>,
) -> bool {
    let entries = params.params@;
    let vectors = index.spec_base().vectors;
    let kind = params.index_type;
    let metric = params.metric_type;
    match index.spec_base().kind {
        VectorIndexKind::Flat(_) => kind == IndexType::Flat,
        VectorIndexKind::Hnsw(hnsw) => {
            let m = spec_positive_param(entries, "m"@);
            let ef = spec_positive_param(entries, "ef_construction"@);
            &&& kind == IndexType::Hnsw
            &&& m is Some && ef is Some
            &&& hnsw.spec_validates(vectors, m->0, ef->0)
        },
        VectorIndexKind::HnswRabitq(hnsw) => {
            let m = spec_positive_param(entries, "m"@);
            let ef = spec_positive_param(entries, "ef_construction"@);
            let bits = spec_positive_param(entries, "total_bits"@);
            let clusters = spec_positive_param(entries, "num_clusters"@);
            let samples = spec_nonnegative_param(entries, "sample_count"@);
            &&& kind == IndexType::HnswRabitq
            &&& m is Some && ef is Some && bits is Some && clusters is Some && samples is Some
            &&& hnsw.graph.spec_validates(vectors, m->0, ef->0)
            &&& hnsw.quantizer.spec_validates(vectors, dimension, bits->0, clusters->0, samples->0, metric)
        },
        VectorIndexKind::Ivf(ivf) => {
            let n_list = spec_positive_param(entries, "n_list"@);
            let soar = spec_boolean_param(entries, "use_soar"@);
            &&& kind == IndexType::Ivf
            &&& n_list is Some && soar is Some
            &&& ivf.spec_validates(vectors, dimension, n_list->0, soar->0)
        },
        VectorIndexKind::IvfRabitq(ivf) => {
            let n_list = spec_positive_param(entries, "n_list"@);
            let bits = spec_positive_param(entries, "total_bits"@);
            let samples = spec_nonnegative_param(entries, "sample_count"@);
            &&& kind == IndexType::IvfRabitq
            &&& n_list is Some && bits is Some && samples is Some
            &&& ivf.ivf.spec_validates(vectors, dimension, n_list->0, false)
            &&& ivf.quantizer.spec_validates(vectors, dimension, bits->0, n_list->0, samples->0, metric)
        },
        VectorIndexKind::Diskann(diskann) => {
            let degree = spec_positive_param(entries, "max_degree"@);
            let list = spec_positive_param(entries, "list_size"@);
            let chunks = spec_nonnegative_param(entries, "pq_chunk_num"@);
            let alpha = spec_finite_param_bits(entries, "alpha"@);
            &&& kind == IndexType::Diskann
            &&& degree is Some && list is Some && chunks is Some && alpha is Some
            &&& diskann.spec_validates(vectors, dimension, degree->0, list->0, chunks->0, alpha->0, recoded)
        },
        VectorIndexKind::Vamana(vamana) => {
            let degree = spec_positive_param(entries, "max_degree"@);
            let list = spec_positive_param(entries, "search_list_size"@);
            let alpha = spec_finite_param_bits(entries, "alpha"@);
            let occlusion = spec_nonnegative_param(entries, "max_occlusion"@);
            let saturate = spec_boolean_param(entries, "saturate"@);
            &&& kind == IndexType::Vamana
            &&& degree is Some && list is Some && alpha is Some && occlusion is Some && saturate is Some
            &&& vamana.spec_validates(vectors, degree->0, list->0, alpha->0)
        },
    }
}

/// Whether the ANN structure of `index` was built as `params` ask (see
/// `spec_validate_vector_kind`).
pub fn validate_vector_kind(
    index: &VectorIndex,
    params: &IndexParams,
    dimension: usize,
    recoded: &OrdinalMap<Vec<u8>>,
) -> (r: bool)
    ensures
        r == spec_validate_vector_kind(*index, *params, dimension, *recoded),
{
    let base = index.base();
    let kind = params.index_type;
    let metric = params.metric_type;
    match &base.kind {
        VectorIndexKind::Flat(_) => kind == IndexType::Flat,
        VectorIndexKind::Hnsw(hnsw) => {
            let m = positive_param(params, "m");
            let ef = positive_param(params, "ef_construction");
            match (m, ef) {
                (Some(m), Some(ef)) => kind == IndexType::Hnsw && hnsw.validates(&base.vectors, m, ef),
                _ => false,
            }
        },
        VectorIndexKind::HnswRabitq(hnsw) => {
            let m = positive_param(params, "m");
            let ef = positive_param(params, "ef_construction");
            let bits = positive_param(params, "total_bits");
            let clusters = positive_param(params, "num_clusters");
            let samples = nonnegative_param(params, "sample_count");
            match (m, ef, bits, clusters, samples) {
                (Some(m), Some(ef), Some(bits), Some(clusters), Some(samples)) => {
                    kind == IndexType::HnswRabitq && hnsw.graph.validates(&base.vectors, m, ef)
                        && hnsw.quantizer.validates(&base.vectors, dimension, bits, clusters, samples, metric)
                },
                _ => false,
            }
        },
        VectorIndexKind::Ivf(ivf) => {
            let n_list = positive_param(params, "n_list");
            let soar = boolean_param(params, "use_soar");
            match (n_list, soar) {
                (Some(n_list), Some(soar)) => kind == IndexType::Ivf && ivf.validates(
                    &base.vectors,
                    dimension,
                    n_list,
                    soar,
                ),
                _ => false,
            }
        },
        VectorIndexKind::IvfRabitq(ivf) => {
            let n_list = positive_param(params, "n_list");
            let bits = positive_param(params, "total_bits");
            let samples = nonnegative_param(params, "sample_count");
            match (n_list, bits, samples) {
                (Some(n_list), Some(bits), Some(samples)) => {
                    kind == IndexType::IvfRabitq && ivf.ivf.validates(&base.vectors, dimension, n_list, false)
                        && ivf.quantizer.validates(&base.vectors, dimension, bits, n_list, samples, metric)
                },
                _ => false,
            }
        },
        VectorIndexKind::Diskann(diskann) => {
            let degree = positive_param(params, "max_degree");
            let list = positive_param(params, "list_size");
            let chunks = nonnegative_param(params, "pq_chunk_num");
            let alpha = finite_param_bits(params, "alpha");
            match (degree, list, chunks, alpha) {
                (Some(degree), Some(list), Some(chunks), Some(alpha)) => {
                    kind == IndexType::Diskann && diskann.validates(
                        &base.vectors,
                        dimension,
                        degree,
                        list,
                        chunks,
                        alpha,
                        recoded,
                    )
                },
                _ => false,
            }
        },
        VectorIndexKind::Vamana(vamana) => {
            let degree = positive_param(params, "max_degree");
            let list = positive_param(params, "search_list_size");
            let alpha = finite_param_bits(params, "alpha");
            let occlusion = nonnegative_param(params, "max_occlusion");
            let saturate = boolean_param(params, "saturate");
            match (degree, list, alpha, occlusion, saturate) {
                (Some(degree), Some(list), Some(alpha), Some(_), Some(_)) => {
                    kind == IndexType::Vamana && vamana.validates(&base.vectors, degree, list, alpha)
                },
                _ => false,
            }
        },
    }
}

} // verus!
