//! HNSW and IVF indexes that keep RaBitQ codes beside their structure, and
//! the checks a restored pair passes.

use crate::index::hnsw::HnswIndex;
use crate::index::ivf::IvfIndex;
use crate::index::ordinal_map::OrdinalMap;
use crate::index::quantization::QuantizedVector;
use crate::index::rabitq::RabitqQuantizer;
use crate::types::MetricType;
use vstd::prelude::*;

verus! {

/// An HNSW graph navigated with RaBitQ codes.
pub struct HnswRabitqIndex {
    pub graph: HnswIndex,
    pub quantizer: RabitqQuantizer,
}

impl HnswRabitqIndex {
    /// The search width of a query (see `HnswIndex::candidate_limit`).
    pub fn candidate_limit(&self, requested_ef: Option<usize>, topk: usize, vector_count: usize) -> (r: usize)
        ensures
            ({
                let ef = match requested_ef {
                    Some(ef) => ef,
                    None => self.graph.spec_default_ef(),
                };
                let wide = if ef >= topk {
                    ef
                } else {
                    topk
                };
                r == if wide <= vector_count {
                    wide
                } else {
                    vector_count
                }
            }),
    {
        self.graph.candidate_limit(requested_ef, topk, vector_count)
    }

    /// Whether both the graph and the codes fit `vectors` and the options.
    pub fn validates(
        &self,
        vectors: &OrdinalMap<QuantizedVector>,
        dimension: usize,
        m: usize,
        ef_construction: usize,
        total_bits: usize,
        num_clusters: usize,
        sample_count: usize,
        metric: MetricType,
    ) -> (r: bool)
        ensures
            r == (self.graph.spec_validates(*vectors, m, ef_construction) && self.quantizer.spec_validates(
                *vectors,
                dimension,
                total_bits,
                num_clusters,
                sample_count,
                metric,
            )),
    {
        self.graph.validates(vectors, m, ef_construction) && self.quantizer.validates(
            vectors,
            dimension,
            total_bits,
            num_clusters,
            sample_count,
            metric,
        )
    }
}

/// IVF lists probed with RaBitQ codes; the quantizer's clusters are the
/// lists.
pub struct IvfRabitqIndex {
    pub ivf: IvfIndex,
    pub quantizer: RabitqQuantizer,
}

impl IvfRabitqIndex {
    /// Whether both the lists (built without SOAR) and the codes fit
    /// `vectors` and the options, `n_list` serving as the cluster count of
    /// both.
    pub fn validates(
        &self,
        vectors: &OrdinalMap<QuantizedVector>,
        dimension: usize,
        n_list: usize,
        total_bits: usize,
        sample_count: usize,
        metric: MetricType,
    ) -> (r: bool)
        ensures
            r == (self.ivf.spec_validates(*vectors, dimension, n_list, false) && self.quantizer.spec_validates(
                *vectors,
                dimension,
                total_bits,
                n_list,
                sample_count,
                metric,
            )),
    {
        self.ivf.validates(vectors, dimension, n_list, false) && self.quantizer.validates(
            vectors,
            dimension,
            total_bits,
            n_list,
            sample_count,
            metric,
        )
    }
}

} // verus!
