//! Candidate plans: which documents a query may score, and how many
//! candidates a plan considered.

use crate::error::{Error, ErrorCode, Result};
use crate::index::ordinals::{ids_in_ordinal_order, OrdinalScores, OrdinalSet};
use vstd::prelude::*;

verus! {

/// The smallest scalar selection that is always scored directly.
pub const SCALAR_EXACT_PREFILTER_MIN: usize = 4096;

/// Scalar candidates scored directly per requested result.
pub const SCALAR_EXACT_PREFILTER_PER_RESULT: usize = 64;

/// The next thing the candidate planner does.
#[derive(Debug, Clone, Copy, PartialEq, Eq, Structural)]
pub enum PlanStep {
    /// Plan through the full-text index; `filter_exact` tells whether the
    /// scalar selection (if any) already equals the filter.
    FullText { filter_exact: bool },
    /// Ask the ANN generation for candidates with no filter.
    Ann,
    /// Score the scalar selection as it is.
    UseSelection,
    /// Check the selection's documents against the filter, then plan again
    /// with an exact selection.
    Refine,
    /// Ask the ANN generation for candidates within the selection; without
    /// a usable generation, score the selection as it is.
    AnnWithin,
}

/// The selection size up to which the selection is scored directly:
/// `topk` times `SCALAR_EXACT_PREFILTER_PER_RESULT` (saturating), at least
/// `SCALAR_EXACT_PREFILTER_MIN`.
pub open spec fn exact_limit(topk: int) -> int {
    let scaled = if topk * 64 <= usize::MAX {
        topk * 64
    } else {
        usize::MAX as int
    };
    if scaled >= 4096 {
        scaled
    } else {
        4096
    }
}

/// The planner's decision: full text first (its filter exact without a
/// filter or with an exact selection); no scalar selection: plain ANN; a
/// negative `topk` is refused; a selection within the exact limit is used
/// as is; an inexact one is refined (which needs the filter); a larger
/// exact one goes to ANN within it.
pub open spec fn spec_plan_step(has_fts: bool, scalar: Option<(usize, bool)>, topk: i32, has_filter: bool) -> core::result::Result<PlanStep, ErrorCode> {
    if has_fts {
        Ok(PlanStep::FullText { filter_exact: !has_filter || (scalar matches Some((_, exact)) && exact) })
    } else {
        match scalar {
            None => Ok(PlanStep::Ann),
            Some((count, exact)) => if topk < 0 {
                Err(ErrorCode::InvalidArgument)
            } else if count <= exact_limit(topk as int) {
                Ok(PlanStep::UseSelection)
            } else if !exact {
                if has_filter {
                    Ok(PlanStep::Refine)
                } else {
                    Err(ErrorCode::Internal)
                }
            } else {
                Ok(PlanStep::AnnWithin)
            },
        }
    }
}

/// How the planner routes a query, over every input: a full-text query
/// goes through the full-text index, its filter exact when there is no
/// filter or the selection is exact; without full text and without a
/// selection it is plain ANN; a negative `topk` is refused only when there
/// is a selection to size; a selection of at most 4096 documents, or of at
/// most 64 per requested result, is scored as it is; a larger selection is
/// never scored as it is, goes to ANN only when it is exact, and an
/// inexact one is refined against the filter, an error only without one.
pub proof fn law_plan_routes(has_fts: bool, scalar: Option<(usize, bool)>, topk: i32, has_filter: bool)
    ensures
        ({
            let r = spec_plan_step(has_fts, scalar, topk, has_filter);
            &&& has_fts ==> r == Ok::<PlanStep, ErrorCode>(
                PlanStep::FullText { filter_exact: !has_filter || (scalar matches Some((_, exact)) && exact) },
            )
            &&& !has_fts && scalar is None ==> r == Ok::<PlanStep, ErrorCode>(PlanStep::Ann)
            &&& r == Err::<PlanStep, ErrorCode>(ErrorCode::InvalidArgument) <==> (!has_fts && scalar is Some && topk < 0)
            &&& (!has_fts && topk >= 0 && (scalar matches Some((count, _)) && (count <= 4096 || count <= topk * 64)))
                ==> r == Ok::<PlanStep, ErrorCode>(PlanStep::UseSelection)
            &&& r == Ok::<PlanStep, ErrorCode>(PlanStep::UseSelection) ==> (scalar matches Some((count, _)) && (
            count <= 4096 || count <= topk * 64))
            &&& r == Ok::<PlanStep, ErrorCode>(PlanStep::AnnWithin) ==> (scalar matches Some((count, exact)) && exact
                && count > 4096)
            &&& r == Ok::<PlanStep, ErrorCode>(PlanStep::Refine) ==> (has_filter && (scalar matches Some((_, exact))
                && !exact))
            &&& r == Err::<PlanStep, ErrorCode>(ErrorCode::Internal) ==> (!has_filter && (scalar matches Some((_, exact))
                && !exact))
        }),
{
}

/// A candidate selection: a member bitmap resolved through the ordinal
/// table.
pub struct CandidateSelection {
    pub ids: OrdinalSet,
}

impl CandidateSelection {
    /// The number of selected documents.
    pub fn count(&self) -> (r: u64)
        ensures
            r == if self.ids.members().len() <= usize::MAX {
                self.ids.members().len() as int
            } else {
                usize::MAX as int
            },
    {
        self.ids.len() as u64
    }

    /// The ids of the selected documents, in increasing ordinal order.
    pub fn ids(&self) -> (r: Vec<&str>)
        ensures
            ids_in_ordinal_order(
                self.ids.table().ids(),
                self.ids.members(),
                r@.map_values(|id: &str| id@),
            ),
    {
        self.ids.ids()
    }

    /// Whether document `id` is selected.
    pub fn contains(&self, id: &str) -> (r: bool)
        ensures
            r == (self.ids.table().ordinals().contains_key(id@) && self.ids.members().contains(
                self.ids.table().ordinals()[id@],
            )),
    {
        self.ids.contains(id)
    }
}

/// How a query's candidates were chosen: an optional selection, optional
/// full-text scores, and which indexes took part.
pub struct CandidatePlan {
    pub selection: Option<CandidateSelection>,
    pub fts_scores: Option<OrdinalScores>,
    pub used_ann: bool,
    pub used_scalar: bool,
    pub used_fts_index: bool,
}

impl CandidatePlan {
    /// How many candidates the plan considered: the full-text candidate
    /// count when scores are present, else the selection's size, else every
    /// document.
    pub fn candidate_count(&self, document_count: usize) -> (r: u64)
        ensures
            r == match self.fts_scores {
                Some(scores) => scores.candidates() as int,
                None => match self.selection {
                    Some(selection) => if selection.ids.members().len() <= usize::MAX {
                        selection.ids.members().len() as int
                    } else {
                        usize::MAX as int
                    },
                    None => document_count as int,
                },
            },
    {
        match &self.fts_scores {
            Some(scores) => scores.candidate_count(),
            None => match &self.selection {
                Some(selection) => selection.count(),
                None => document_count as u64,
            },
        }
    }
}

/// The planner's next step for a query with (`has_fts`) or without full
/// text, a scalar selection of `scalar.0` documents that is exact
/// (`scalar.1`) or a superset of the filter's, the query's `topk`, and
/// whether a parsed filter is at hand (see `spec_plan_step`). The caller
/// performs the step: it runs full-text or ANN planning, refines the
/// selection and asks again, or takes the selection.
pub fn plan_step(has_fts: bool, scalar: Option<(usize, bool)>, topk: i32, has_filter: bool) -> (r: Result<PlanStep>)
    ensures
        match r {
            Ok(step) => spec_plan_step(has_fts, scalar, topk, has_filter) == Ok::<PlanStep, ErrorCode>(step),
            Err(e) => spec_plan_step(has_fts, scalar, topk, has_filter) == Err::<PlanStep, ErrorCode>(e.code),
        },
{
    if has_fts {
        let filter_exact = !has_filter || match scalar {
            Some((_, exact)) => exact,
            None => false,
        };
        return Ok(PlanStep::FullText { filter_exact });
    }
    let (count, exact) = match scalar {
        None => {
            return Ok(PlanStep::Ann);
        },
        Some(selection) => selection,
    };
    if topk < 0 {
        return Err(Error::invalid_argument("query topk must be positive"));
    }
    let topk = topk as usize;
    let scaled = match topk.checked_mul(SCALAR_EXACT_PREFILTER_PER_RESULT) {
        Some(product) => product,
        None => usize::MAX,
    };
    let limit = if scaled >= SCALAR_EXACT_PREFILTER_MIN {
        scaled
    } else {
        SCALAR_EXACT_PREFILTER_MIN
    };
    if count <= limit {
        return Ok(PlanStep::UseSelection);
    }
    if !exact {
        if has_filter {
            return Ok(PlanStep::Refine);
        }
        return Err(Error::internal("scalar candidate refinement requires a parsed filter"));
    }
    Ok(PlanStep::AnnWithin)
}

} // verus!
