//! A DiskANN generation: a Vamana graph with an optional product quantizer
//! for compressed search.

use crate::index::ordinal_map::OrdinalMap;
use crate::index::product_quantization::ProductQuantizer;
use crate::index::quantization::QuantizedVector;
use crate::index::vamana::VamanaIndex;
use vstd::prelude::*;

verus! {

/// A Vamana graph and, when built with PQ chunks, its product quantizer.
pub struct DiskannIndex {
    pub graph: VamanaIndex,
    pub pq: Option<ProductQuantizer>,
}

impl DiskannIndex {
    /// Whether the generation fits `vectors` and the options: the graph
    /// validates against the degree bound, list size and pruning factor
    /// (`alpha_bits`, an `f64` bit pattern); with no PQ chunks there is no
    /// quantizer, and with some there is one that validates for them
    /// (`recoded` as for `ProductQuantizer::spec_validates`).
    pub open spec fn spec_validates(
        &self,
        vectors: OrdinalMap<QuantizedVector>,
        dimension: usize,
        max_degree: usize,
        list_size: usize,
        pq_chunk_num: usize,
        alpha_bits: u64,
        recoded: OrdinalMap<Vec<u8>>,
    ) -> bool {
        &&& self.graph.spec_validates(vectors, max_degree, list_size, alpha_bits)
        &&& match self.pq {
            None => pq_chunk_num == 0,
            Some(pq) => pq_chunk_num > 0 && pq.spec_validates(vectors, dimension, pq_chunk_num, recoded),
        }
    }

    /// Whether the generation fits (see `spec_validates`).
    pub fn validates(
        &self,
        vectors: &OrdinalMap<QuantizedVector>,
        dimension: usize,
        max_degree: usize,
        list_size: usize,
        pq_chunk_num: usize,
        alpha_bits: u64,
        recoded: &OrdinalMap<Vec<u8>>,
    ) -> (r: bool)
        ensures
            r == self.spec_validates(*vectors, dimension, max_degree, list_size, pq_chunk_num, alpha_bits, *recoded),
    {
        if !self.graph.validates(vectors, max_degree, list_size, alpha_bits) {
            return false;
        }
        match &self.pq {
            None => pq_chunk_num == 0,
            Some(pq) => pq_chunk_num > 0 && pq.validates(vectors, dimension, pq_chunk_num, recoded),
        }
    }
}

} // verus!
