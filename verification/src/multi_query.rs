//! Multi-route retrieval requests: sub-queries whose results are fused by a
//! reranking strategy.

use crate::error::{Error, ErrorCode, Result};
use crate::query::{
    all_f32_finite, all_finite, apply_diskann_query_controls, apply_fts_query_controls,
    apply_hnsw_query_controls, apply_ivf_query_controls, ascii_caseless_eq, cleared_ann,
    contains_char, f32_bits_finite, f32_bits_positive_finite, filter_slot, matches_ascii_caseless,
    merged_controls, name_views, no_controls, opt_seq, opt_text, opt_texts, parsed_operator,
    radius_slot, sparse_ok, spec_valid_name, unsupported_query_controls, zip_sparse, zipped,
    ControlKind, DiskannQueryParams, FlatQueryParams, Fts, FtsQueryParams, HnswQueryParams,
    IvfQueryParams, IvfRabitqQueryParams, QueryControls, SearchQuery,
};
use crate::text::{is_blank, spec_is_blank};
use vstd::prelude::*;
use vstd::slice::*;
use vstd::string::*;

verus! {

/// The most sub-queries one multi-query holds.
pub const MAX_SUB_QUERIES: usize = 1024;

/// How branch results are fused. Weights are kept as `f64` bit patterns.
#[derive(Debug, Clone)]
pub enum RerankMethod {
    ReciprocalRank { rank_constant: i32 },
    Weighted { weights: Vec<u64> },
}

impl Default for RerankMethod {
    /// Weighted fusion with no weights.
    fn default() -> (r: Self)
        ensures
            r matches RerankMethod::Weighted { weights } && weights@.len() == 0,
    {
        RerankMethod::Weighted { weights: Vec::new() }
    }
}

/// Whether `bits` is the pattern of a finite `f64` that is not below zero
/// (`-0.0` included).
pub open spec fn f64_bits_nonnegative_finite(bits: u64) -> bool {
    bits < 0x7ff0_0000_0000_0000 || bits == 0x8000_0000_0000_0000
}

/// Whether a field name is usable: not blank and free of NUL.
fn valid_name(name: &str) -> (r: bool)
    ensures
        r == spec_valid_name(name@),
{
    !is_blank(name) && !contains_char(name, '\0')
}

/// One branch of a multi-query. Vector values are kept as `f32` bit
/// patterns.
#[derive(Debug)]
pub struct SubQuery {
    pub field_name: Option<String>,
    pub vector: Option<Vec<u32>>,
    pub sparse_vector: Option<Vec<(u32, u32)>>,
    pub fts: Option<Fts>,
    pub num_candidates: i32,
    pub params: QueryControls,
}

/// Two branches hold the same values.
pub open spec fn same_sub_query(a: SubQuery, b: SubQuery) -> bool {
    &&& a.field_name == b.field_name
    &&& opt_seq(a.vector) == opt_seq(b.vector)
    &&& opt_seq(a.sparse_vector) == opt_seq(b.sparse_vector)
    &&& a.fts == b.fts
    &&& a.num_candidates == b.num_candidates
    &&& a.params == b.params
}

/// `b` is `a` with only the sparse vector changed.
pub open spec fn sparse_only_changed(a: SubQuery, b: SubQuery) -> bool {
    &&& a.field_name == b.field_name
    &&& opt_seq(a.vector) == opt_seq(b.vector)
    &&& a.fts == b.fts
    &&& a.num_candidates == b.num_candidates
    &&& a.params == b.params
}

/// The values a sparse vector pairs with its indices.
pub open spec fn sparse_values(pairs: Seq<(u32, u32)>) -> Seq<u32> {
    pairs.map_values(|p: (u32, u32)| p.1)
}

/// The indices of a sparse vector.
pub open spec fn sparse_indices(pairs: Seq<(u32, u32)>) -> Seq<u32> {
    pairs.map_values(|p: (u32, u32)| p.0)
}

/// The indices `0..n`.
pub open spec fn counting(n: nat) -> Seq<u32> {
    Seq::new(n, |i: int| i as u32)
}

/// `n` zero values.
pub open spec fn zeros(n: nat) -> Seq<u32> {
    Seq::new(n, |i: int| 0u32)
}

/// Whether a branch makes a query: a valid field, a positive candidate
/// count, and a usable vector, sparse vector or full-text expression, tried
/// in that order.
pub open spec fn sub_query_valid(q: SubQuery) -> bool {
    &&& q.field_name is Some
    &&& spec_valid_name(q.field_name->0@)
    &&& q.num_candidates > 0
    &&& if q.vector is Some {
        q.vector->0@.len() > 0 && all_f32_finite(q.vector->0@)
    } else if q.sparse_vector is Some {
        let pairs = q.sparse_vector->0@;
        sparse_ok(sparse_indices(pairs), sparse_values(pairs))
    } else if q.fts is Some {
        q.fts->0.query_string is Some || q.fts->0.match_string is Some
    } else {
        false
    }
}

/// A copy of a list of pairs.
fn copy_pairs(pairs: &Vec<(u32, u32)>) -> (r: Vec<(u32, u32)>)
    ensures
        r@ == pairs@,
{
    let mut out: Vec<(u32, u32)> = Vec::new();
    let mut i: usize = 0;
    while i < pairs.len()
        invariant
            i <= pairs@.len(),
            out@ == pairs@.subrange(0, i as int),
        decreases pairs@.len() - i,
    {
        out.push(pairs[i]);
        i = i + 1;
        proof {
            assert(out@ =~= pairs@.subrange(0, i as int));
        }
    }
    proof {
        assert(out@ =~= pairs@);
    }
    out
}

impl Clone for SubQuery {
    /// A copy with the same values.
    fn clone(&self) -> (r: Self)
        ensures
            same_sub_query(r, *self),
    {
        let vector = match &self.vector {
            Some(v) => Some(v.clone()),
            None => None,
        };
        let sparse_vector = match &self.sparse_vector {
            Some(v) => Some(copy_pairs(v)),
            None => None,
        };
        proof {
            if self.vector is Some {
                assert(vector->0@ =~= self.vector->0@);
            }
        }
        SubQuery {
            field_name: self.field_name.clone(),
            vector,
            sparse_vector,
            fts: self.fts.clone(),
            num_candidates: self.num_candidates,
            params: self.params,
        }
    }
}

impl SubQuery {
    /// A branch with nothing set and 10 candidates.
    pub fn new() -> (r: Result<Self>)
        ensures
            r matches Ok(q) && q.field_name is None && q.vector is None && q.sparse_vector is None
                && q.fts is None && q.num_candidates == 10 && q.params == no_controls(),
    {
        Ok(SubQuery {
            field_name: None,
            vector: None,
            sparse_vector: None,
            fts: None,
            num_candidates: 10,
            params: QueryControls::new(),
        })
    }

    /// Sets how many candidates the branch contributes; it must be positive.
    pub fn set_num_candidates(&mut self, n: i32) -> (r: Result<()>)
        ensures
            n > 0 ==> r is Ok && final(self).num_candidates == n && same_sub_query(
                SubQuery { num_candidates: old(self).num_candidates, ..*final(self) },
                *old(self),
            ),
            n <= 0 ==> (r matches Err(e) && e.code == ErrorCode::InvalidArgument) && *final(self)
                == *old(self),
    {
        if n <= 0 {
            return Err(Error::invalid_argument("num_candidates must be positive"));
        }
        self.num_candidates = n;
        Ok(())
    }

    /// How many candidates the branch contributes.
    pub fn num_candidates(&self) -> (r: i32)
        ensures
            r == self.num_candidates,
    {
        self.num_candidates
    }

    /// Sets the field name; an invalid name changes nothing.
    pub fn set_field_name(&mut self, name: &str) -> (r: Result<()>)
        ensures
            spec_valid_name(name@) ==> r is Ok && opt_text(final(self).field_name) == Some(name@)
                && same_sub_query(
                SubQuery { field_name: old(self).field_name, ..*final(self) },
                *old(self),
            ),
            !spec_valid_name(name@) ==> (r matches Err(e) && e.code == ErrorCode::InvalidArgument)
                && *final(self) == *old(self),
    {
        if !valid_name(name) {
            return Err(Error::invalid_argument("field name must be non-empty"));
        }
        self.field_name = Some(name.to_owned());
        Ok(())
    }

    /// Sets a dense vector, which must be non-empty and finite; it replaces
    /// any sparse vector.
    pub fn set_query_vector(&mut self, data: &[u32]) -> (r: Result<()>)
        ensures
            data@.len() > 0 && all_f32_finite(data@) ==> r is Ok && opt_seq(final(self).vector)
                == Some(data@) && final(self).sparse_vector is None && final(self).field_name == old(
                self,
            ).field_name && final(self).fts == old(self).fts && final(self).num_candidates == old(
                self,
            ).num_candidates && final(self).params == old(self).params,
            !(data@.len() > 0 && all_f32_finite(data@)) ==> (r matches Err(e) && e.code
                == ErrorCode::InvalidArgument) && *final(self) == *old(self),
    {
        if data.len() == 0 || !all_finite(data) {
            return Err(Error::invalid_argument("query vector must be non-empty and finite"));
        }
        self.vector = Some(slice_to_vec(data));
        self.sparse_vector = None;
        Ok(())
    }

    /// Sets a sparse vector; it replaces any dense vector.
    pub fn set_sparse_vector(&mut self, indices: &[u32], values: &[u32]) -> (r: Result<()>)
        ensures
            sparse_ok(indices@, values@) ==> r is Ok && opt_seq(final(self).sparse_vector) == Some(
                zipped(indices@, values@),
            ) && final(self).vector is None && final(self).field_name == old(self).field_name
                && final(self).fts == old(self).fts && final(self).num_candidates == old(
                self,
            ).num_candidates && final(self).params == old(self).params,
            !sparse_ok(indices@, values@) ==> (r matches Err(e) && e.code
                == ErrorCode::InvalidArgument) && *final(self) == *old(self),
    {
        if indices.len() == 0 || indices.len() != values.len() || !all_finite(values) {
            return Err(Error::invalid_argument("invalid sparse vector"));
        }
        let pairs = zip_sparse(indices, values);
        proof {
            assert(pairs@ =~= zipped(indices@, values@));
        }
        self.sparse_vector = Some(pairs);
        self.vector = None;
        Ok(())
    }

    /// Replaces the sparse indices, keeping the values (zeros when there is
    /// no sparse vector yet); the lengths must agree.
    pub fn set_sparse_indices(&mut self, indices: &[u32]) -> (r: Result<()>)
        ensures
            ({
                let values = match old(self).sparse_vector {
                    Some(pairs) => sparse_values(pairs@),
                    None => zeros(indices@.len()),
                };
                &&& indices@.len() > 0 && values.len() == indices@.len() ==> r is Ok && opt_seq(
                    final(self).sparse_vector,
                ) == Some(zipped(indices@, values)) && sparse_only_changed(*old(self), *final(self))
                &&& !(indices@.len() > 0 && values.len() == indices@.len()) ==> (r matches Err(e)
                    && e.code == ErrorCode::InvalidArgument) && *final(self) == *old(self)
            }),
    {
        if indices.len() == 0 {
            return Err(Error::invalid_argument("sparse indices cannot be empty"));
        }
        let mut values: Vec<u32> = Vec::new();
        let ghost expected = if self.sparse_vector is Some {
            sparse_values(self.sparse_vector->0@)
        } else {
            zeros(indices@.len())
        };
        match &self.sparse_vector {
            Some(pairs) => {
                let mut i: usize = 0;
                while i < pairs.len()
                    invariant
                        i <= pairs@.len(),
                        values@ == sparse_values(pairs@).subrange(0, i as int),
                    decreases pairs@.len() - i,
                {
                    values.push(pairs[i].1);
                    i = i + 1;
                    proof {
                        assert(values@ =~= sparse_values(pairs@).subrange(0, i as int));
                    }
                }
                proof {
                    assert(values@ =~= sparse_values(pairs@));
                }
            },
            None => {
                let mut i: usize = 0;
                while i < indices.len()
                    invariant
                        i <= indices@.len(),
                        values@ == zeros(i as nat),
                    decreases indices@.len() - i,
                {
                    values.push(0);
                    i = i + 1;
                    proof {
                        assert(values@ =~= zeros(i as nat));
                    }
                }
            },
        }
        if values.len() != indices.len() {
            return Err(Error::invalid_argument("sparse indices and values have different lengths"));
        }
        let pairs = zip_sparse(indices, values.as_slice());
        proof {
            assert(pairs@ =~= zipped(indices@, expected));
        }
        self.sparse_vector = Some(pairs);
        Ok(())
    }

    /// Replaces the sparse values, which must be non-empty and finite,
    /// keeping the indices (`0..n` when there is no sparse vector yet); the
    /// lengths must agree, and `0..n` must fit in `u32`.
    pub fn set_sparse_values(&mut self, values: &[u32]) -> (r: Result<()>)
        ensures
            !(values@.len() > 0 && all_f32_finite(values@)) ==> (r matches Err(e) && e.code
                == ErrorCode::InvalidArgument) && *final(self) == *old(self),
            values@.len() > 0 && all_f32_finite(values@) && old(self).sparse_vector is None
                && values@.len() > u32::MAX ==> (r matches Err(e) && e.code
                == ErrorCode::ResourceExhausted) && *final(self) == *old(self),
            ({
                let indices = match old(self).sparse_vector {
                    Some(pairs) => sparse_indices(pairs@),
                    None => counting(values@.len()),
                };
                values@.len() > 0 && all_f32_finite(values@) && (old(self).sparse_vector is Some
                    || values@.len() <= u32::MAX) ==> if indices.len() == values@.len() {
                    r is Ok && opt_seq(final(self).sparse_vector) == Some(zipped(indices, values@))
                        && sparse_only_changed(*old(self), *final(self))
                } else {
                    (r matches Err(e) && e.code == ErrorCode::InvalidArgument) && *final(self)
                        == *old(self)
                }
            }),
    {
        if values.len() == 0 || !all_finite(values) {
            return Err(Error::invalid_argument("sparse values cannot be empty and must be finite"));
        }
        let mut indices: Vec<u32> = Vec::new();
        let ghost expected = if self.sparse_vector is Some {
            sparse_indices(self.sparse_vector->0@)
        } else {
            counting(values@.len())
        };
        match &self.sparse_vector {
            Some(pairs) => {
                let mut i: usize = 0;
                while i < pairs.len()
                    invariant
                        i <= pairs@.len(),
                        indices@ == sparse_indices(pairs@).subrange(0, i as int),
                    decreases pairs@.len() - i,
                {
                    indices.push(pairs[i].0);
                    i = i + 1;
                    proof {
                        assert(indices@ =~= sparse_indices(pairs@).subrange(0, i as int));
                    }
                }
                proof {
                    assert(indices@ =~= sparse_indices(pairs@));
                }
            },
            None => {
                if values.len() as u128 > u32::MAX as u128 {
                    return Err(Error::resource_exhausted("sparse vector exceeds u32 dimensions"));
                }
                let length = values.len() as u32;
                let mut i: u32 = 0;
                while i < length
                    invariant
                        i <= length,
                        length == values@.len(),
                        indices@ == counting(i as nat),
                    decreases length - i,
                {
                    indices.push(i);
                    i = i + 1;
                    proof {
                        assert(indices@ =~= counting(i as nat));
                    }
                }
            },
        }
        if indices.len() != values.len() {
            return Err(Error::invalid_argument("sparse indices and values have different lengths"));
        }
        let pairs = zip_sparse(indices.as_slice(), values);
        proof {
            assert(pairs@ =~= zipped(expected, values@));
        }
        self.sparse_vector = Some(pairs);
        Ok(())
    }

    /// Records HNSW controls (see `apply_hnsw_query_controls`).
    pub fn set_hnsw_params(&mut self, params: HnswQueryParams) -> (r: Result<()>)
        ensures
            params.ef > 0 && f32_bits_finite(params.radius_bits) ==> r is Ok && *final(self) == (
            SubQuery {
                params: QueryControls {
                    index_type: Some(ControlKind::Hnsw),
                    ef: Some(params.ef),
                    is_linear: Some(params.is_linear),
                    is_using_refiner: Some(params.is_using_refiner),
                    radius_bits: radius_slot(params.radius_bits),
                    ..cleared_ann(old(self).params)
                },
                ..*old(self)
            }),
            !(params.ef > 0 && f32_bits_finite(params.radius_bits)) ==> (r matches Err(e) && e.code
                == ErrorCode::InvalidArgument) && *final(self) == *old(self),
    {
        apply_hnsw_query_controls(&mut self.params, params)
    }

    /// Records IVF controls (see `apply_ivf_query_controls`).
    pub fn set_ivf_params(&mut self, params: IvfQueryParams) -> (r: Result<()>)
        ensures
            params.nprobe > 0 && f32_bits_positive_finite(params.scale_factor_bits) ==> r is Ok
                && *final(self) == (SubQuery {
                params: QueryControls {
                    index_type: Some(ControlKind::Ivf),
                    nprobe: Some(params.nprobe),
                    is_using_refiner: Some(params.is_using_refiner),
                    scale_factor_bits: Some(params.scale_factor_bits),
                    ..cleared_ann(old(self).params)
                },
                ..*old(self)
            }),
            !(params.nprobe > 0 && f32_bits_positive_finite(params.scale_factor_bits)) ==> (
            r matches Err(e) && e.code == ErrorCode::InvalidArgument) && *final(self) == *old(
                self,
            ),
    {
        apply_ivf_query_controls(&mut self.params, params)
    }

    /// IVF RaBitQ controls have no consumer in a branch and are refused.
    pub fn set_ivf_rabitq_params(&mut self, params: IvfRabitqQueryParams) -> (r: Result<()>)
        ensures
            r matches Err(e) && e.code == ErrorCode::NotSupported,
            *final(self) == *old(self),
    {
        unsupported_query_controls("IVF RaBitQ")
    }

    /// Flat refinement controls have no consumer and are refused.
    pub fn set_flat_params(&mut self, params: FlatQueryParams) -> (r: Result<()>)
        ensures
            r matches Err(e) && e.code == ErrorCode::NotSupported,
            *final(self) == *old(self),
    {
        unsupported_query_controls("Flat refinement")
    }

    /// Records DiskANN controls (see `apply_diskann_query_controls`).
    pub fn set_diskann_params(&mut self, params: DiskannQueryParams) -> (r: Result<()>)
        ensures
            params.list_size > 0 ==> r is Ok && *final(self) == (SubQuery {
                params: QueryControls {
                    index_type: Some(ControlKind::Diskann),
                    list_size: Some(params.list_size),
                    ..cleared_ann(old(self).params)
                },
                ..*old(self)
            }),
            params.list_size <= 0 ==> (r matches Err(e) && e.code == ErrorCode::InvalidArgument)
                && *final(self) == *old(self),
    {
        apply_diskann_query_controls(&mut self.params, params)
    }

    /// Records the full-text operator (see `apply_fts_query_controls`).
    pub fn set_fts_params(&mut self, params: FtsQueryParams) -> (r: Result<()>)
        ensures
            params.default_operator is None ==> r is Ok && *final(self) == (SubQuery {
                params: QueryControls { default_operator: None, ..old(self).params },
                ..*old(self)
            }),
            params.default_operator matches Some(value) ==> match parsed_operator(value@) {
                Some(operator) => r is Ok && *final(self) == (SubQuery {
                    params: QueryControls {
                        default_operator: Some(operator),
                        ..old(self).params
                    },
                    ..*old(self)
                }),
                None => (r matches Err(e) && e.code == ErrorCode::InvalidArgument) && *final(self)
                    == *old(self),
            },
    {
        apply_fts_query_controls(&mut self.params, params)
    }

    /// Sets the full-text expression, which must set a query or match
    /// string.
    pub fn set_fts(&mut self, fts: &Fts) -> (r: Result<()>)
        ensures
            fts.query_string is Some || fts.match_string is Some ==> r is Ok && *final(self) == (
            SubQuery { fts: Some(*fts), ..*old(self) }),
            !(fts.query_string is Some || fts.match_string is Some) ==> (r matches Err(e) && e.code
                == ErrorCode::InvalidArgument) && *final(self) == *old(self),
    {
        if fts.query_string.is_none() && fts.match_string.is_none() {
            return Err(Error::invalid_argument("FTS query has no expression"));
        }
        self.fts = Some(fts.clone());
        Ok(())
    }

    /// The single query this branch runs: its vector, else its sparse
    /// vector, else its full-text expression, with `num_candidates` as
    /// `topk` and the branch's controls.
    pub fn to_search_query(&self) -> (r: Result<SearchQuery>)
        ensures
            sub_query_valid(*self) ==> (r matches Ok(q) && q.field_name@ == self.field_name->0@
                && q.topk == self.num_candidates && q.id is None && q.filter is None
                && !q.include_vector && !q.include_doc_id && q.output_fields is None && q.params
                == merged_controls(no_controls(), self.params) && (if self.vector is Some {
                opt_seq(q.vector) == opt_seq(self.vector) && q.sparse_vector is None && q.fts is None
            } else if self.sparse_vector is Some {
                q.vector is None && opt_seq(q.sparse_vector) == opt_seq(self.sparse_vector) && q.fts
                    is None
            } else {
                q.vector is None && q.sparse_vector is None && q.fts == self.fts
            })),
            !sub_query_valid(*self) ==> (r matches Err(e) && e.code == ErrorCode::InvalidArgument),
    {
        let field = match &self.field_name {
            Some(field) => field,
            None => {
                return Err(Error::invalid_argument("sub-query field_name is required"));
            },
        };
        let mut query = if let Some(vector) = &self.vector {
            SearchQuery::new(field.as_str(), vector.as_slice(), self.num_candidates)?
        } else if let Some(sparse) = &self.sparse_vector {
            let mut indices: Vec<u32> = Vec::new();
            let mut values: Vec<u32> = Vec::new();
            let mut i: usize = 0;
            while i < sparse.len()
                invariant
                    i <= sparse@.len(),
                    indices@ == sparse_indices(sparse@).subrange(0, i as int),
                    values@ == sparse_values(sparse@).subrange(0, i as int),
                decreases sparse@.len() - i,
            {
                indices.push(sparse[i].0);
                values.push(sparse[i].1);
                i = i + 1;
                proof {
                    assert(indices@ =~= sparse_indices(sparse@).subrange(0, i as int));
                    assert(values@ =~= sparse_values(sparse@).subrange(0, i as int));
                }
            }
            proof {
                assert(indices@ =~= sparse_indices(sparse@));
                assert(values@ =~= sparse_values(sparse@));
                assert(zipped(indices@, values@) =~= sparse@);
            }
            SearchQuery::sparse(
                field.as_str(),
                indices.as_slice(),
                values.as_slice(),
                self.num_candidates,
            )?
        } else if let Some(fts) = &self.fts {
            SearchQuery::fts(field.as_str(), fts, self.num_candidates)?
        } else {
            return Err(Error::invalid_argument("sub-query has no vector or FTS payload"));
        };
        query.params.extend(&self.params);
        Ok(query)
    }
}

/// The name a normalization method parses to, if it parses.
pub open spec fn parsed_normalization(method: Seq<char>) -> Option<Seq<char>> {
    if ascii_caseless_eq(method, "none"@) {
        Some("none"@)
    } else if ascii_caseless_eq(method, "minmax"@) {
        Some("minmax"@)
    } else if ascii_caseless_eq(method, "zscore"@) {
        Some("zscore"@)
    } else {
        None
    }
}

/// Sub-queries whose results are fused into one ranking.
#[derive(Debug)]
pub struct MultiQuery {
    pub queries: Vec<SubQuery>,
    pub topk_value: i32,
    pub filter: Option<String>,
    pub include_vector_value: bool,
    pub output_fields: Option<Vec<String>>,
    pub rerank: RerankMethod,
    pub normalization: Option<String>,
}

impl MultiQuery {
    /// No branches, `topk` of 10 and weighted fusion with no weights.
    pub fn new() -> (r: Result<Self>)
        ensures
            r matches Ok(q) && q.queries@.len() == 0 && q.topk_value == 10 && q.filter is None
                && !q.include_vector_value && q.output_fields is None && (q.rerank matches RerankMethod::Weighted {
                weights,
            } && weights@.len() == 0) && q.normalization is None,
    {
        Ok(MultiQuery {
            queries: Vec::new(),
            topk_value: 10,
            filter: None,
            include_vector_value: false,
            output_fields: None,
            rerank: RerankMethod::Weighted { weights: Vec::new() },
            normalization: None,
        })
    }

    /// Appends a copy of `sub`; at most `MAX_SUB_QUERIES` branches fit.
    pub fn add_sub_query(&mut self, sub: &SubQuery) -> (r: Result<()>)
        ensures
            old(self).queries@.len() < MAX_SUB_QUERIES ==> r is Ok && final(self).queries@.len()
                == old(self).queries@.len() + 1 && same_sub_query(
                final(self).queries@.last(),
                *sub,
            ) && final(self).queries@.drop_last() == old(self).queries@ && final(self).topk_value
                == old(self).topk_value,
            old(self).queries@.len() >= MAX_SUB_QUERIES ==> (r matches Err(e) && e.code
                == ErrorCode::ResourceExhausted) && *final(self) == *old(self),
    {
        if self.queries.len() >= MAX_SUB_QUERIES {
            return Err(Error::resource_exhausted("multi-query branch limit exceeded"));
        }
        let ghost before = self.queries@;
        self.queries.push(sub.clone());
        proof {
            assert(self.queries@.drop_last() =~= before);
        }
        Ok(())
    }

    /// The number of branches.
    pub fn sub_query_count(&self) -> (r: usize)
        ensures
            r == self.queries@.len(),
    {
        self.queries.len()
    }

    /// Sets `topk`; it must be positive.
    pub fn set_topk(&mut self, topk: i32) -> (r: Result<()>)
        ensures
            topk > 0 ==> r is Ok && final(self).topk_value == topk && final(self).queries
                == old(self).queries,
            topk <= 0 ==> (r matches Err(e) && e.code == ErrorCode::InvalidArgument) && *final(self)
                == *old(self),
    {
        if topk <= 0 {
            return Err(Error::invalid_argument("topk must be positive"));
        }
        self.topk_value = topk;
        Ok(())
    }

    /// The fused result size.
    pub fn topk(&self) -> (r: i32)
        ensures
            r == self.topk_value,
    {
        self.topk_value
    }

    /// Sets the filter; a blank filter clears it.
    pub fn set_filter(&mut self, filter: &str) -> (r: Result<()>)
        ensures
            r is Ok,
            opt_text(final(self).filter) == filter_slot(filter@),
            final(self).queries == old(self).queries,
            final(self).topk_value == old(self).topk_value,
    {
        if is_blank(filter) {
            self.filter = None;
        } else {
            self.filter = Some(filter.to_owned());
        }
        Ok(())
    }

    /// Whether results carry their vectors.
    pub fn set_include_vector(&mut self, enabled: bool) -> (r: Result<()>)
        ensures
            r is Ok,
            final(self).include_vector_value == enabled,
            final(self).queries == old(self).queries,
    {
        self.include_vector_value = enabled;
        Ok(())
    }

    /// Whether results carry their vectors.
    pub fn include_vector(&self) -> (r: bool)
        ensures
            r == self.include_vector_value,
    {
        self.include_vector_value
    }

    /// Sets the returned fields; every name must be valid, else nothing
    /// changes.
    pub fn set_output_fields(&mut self, fields: &[&str]) -> (r: Result<()>)
        ensures
            (forall|i: int| 0 <= i < fields@.len() ==> spec_valid_name(#[trigger] fields@[i]@))
                ==> r is Ok && opt_texts(final(self).output_fields) == Some(name_views(fields@))
                && final(self).queries == old(self).queries,
            !(forall|i: int| 0 <= i < fields@.len() ==> spec_valid_name(#[trigger] fields@[i]@))
                ==> (r matches Err(e) && e.code == ErrorCode::InvalidArgument) && *final(self)
                == *old(self),
    {
        let mut i: usize = 0;
        while i < fields.len()
            invariant
                i <= fields@.len(),
                forall|j: int| 0 <= j < i ==> spec_valid_name(#[trigger] fields@[j]@),
            decreases fields@.len() - i,
        {
            if !valid_name(fields[i]) {
                return Err(Error::invalid_argument("output field name is invalid"));
            }
            i = i + 1;
        }
        let mut names: Vec<String> = Vec::new();
        let mut k: usize = 0;
        while k < fields.len()
            invariant
                k <= fields@.len(),
                names@.len() == k,
                forall|j: int| 0 <= j < k ==> (#[trigger] names@[j])@ == fields@[j]@,
            decreases fields@.len() - k,
        {
            names.push(fields[k].to_owned());
            k = k + 1;
        }
        proof {
            assert(names@.map_values(|s: String| s@) =~= name_views(fields@));
        }
        self.output_fields = Some(names);
        Ok(())
    }

    /// Fuses by reciprocal rank; the rank constant must be positive.
    pub fn set_rerank_rrf(&mut self, rank_constant: i32) -> (r: Result<()>)
        ensures
            rank_constant > 0 ==> r is Ok && (final(self).rerank matches RerankMethod::ReciprocalRank {
                rank_constant: k,
            } && k == rank_constant) && final(self).queries == old(self).queries,
            rank_constant <= 0 ==> (r matches Err(e) && e.code == ErrorCode::InvalidArgument)
                && *final(self) == *old(self),
    {
        if rank_constant <= 0 {
            return Err(Error::invalid_argument("RRF rank constant must be positive"));
        }
        self.rerank = RerankMethod::ReciprocalRank { rank_constant };
        Ok(())
    }

    /// Fuses by weights, which must be non-empty, finite and not below zero.
    pub fn set_rerank_weighted(&mut self, weights: &[u64]) -> (r: Result<()>)
        ensures
            weights@.len() > 0 && (forall|i: int|
                0 <= i < weights@.len() ==> f64_bits_nonnegative_finite(#[trigger] weights@[i]))
                ==> r is Ok && (final(self).rerank matches RerankMethod::Weighted { weights: w }
                && w@ == weights@) && final(self).queries == old(self).queries,
            !(weights@.len() > 0 && (forall|i: int|
                0 <= i < weights@.len() ==> f64_bits_nonnegative_finite(#[trigger] weights@[i])))
                ==> (r matches Err(e) && e.code == ErrorCode::InvalidArgument) && *final(self)
                == *old(self),
    {
        let mut valid = weights.len() > 0;
        let mut i: usize = 0;
        while i < weights.len()
            invariant
                i <= weights@.len(),
                valid == (weights@.len() > 0 && forall|j: int|
                    0 <= j < i ==> f64_bits_nonnegative_finite(#[trigger] weights@[j])),
            decreases weights@.len() - i,
        {
            let bits = weights[i];
            if !(bits < 0x7ff0_0000_0000_0000 || bits == 0x8000_0000_0000_0000) {
                valid = false;
            }
            i = i + 1;
        }
        if !valid {
            return Err(
                Error::invalid_argument("weights must be non-empty, finite, and non-negative"),
            );
        }
        self.rerank = RerankMethod::Weighted { weights: slice_to_vec(weights) };
        Ok(())
    }

    /// Sets the score normalization: `none`, `minmax` or `zscore`, ignoring
    /// ASCII case and stored in lower case.
    pub fn set_normalization(&mut self, method: &str) -> (r: Result<()>)
        ensures
            parsed_normalization(method@) matches Some(name) ==> r is Ok && opt_text(
                final(self).normalization,
            ) == Some(name) && final(self).queries == old(self).queries,
            parsed_normalization(method@) is None ==> (r matches Err(e) && e.code
                == ErrorCode::InvalidArgument) && *final(self) == *old(self),
    {
        proof {
            reveal_strlit("none");
            reveal_strlit("minmax");
            reveal_strlit("zscore");
        }
        let name = if matches_ascii_caseless(method, "none") {
            "none"
        } else if matches_ascii_caseless(method, "minmax") {
            "minmax"
        } else if matches_ascii_caseless(method, "zscore") {
            "zscore"
        } else {
            return Err(Error::invalid_argument("normalization must be none, minmax, or zscore"));
        };
        self.normalization = Some(name.to_owned());
        Ok(())
    }

    /// The filter, if set.
    pub fn effective_filter(&self) -> (r: Option<&str>)
        ensures
            r is Some == self.filter is Some,
            r matches Some(f) ==> f@ == self.filter->0@,
    {
        match &self.filter {
            Some(filter) => Some(filter.as_str()),
            None => None,
        }
    }
}

} // verus!
