use a3s_vec::ErrorCode;
use a3s_vec::index::ordinals::{OrdinalScores, OrdinalSet, OrdinalTable};
use a3s_vec::index::plan::{plan_step, CandidatePlan, CandidateSelection, PlanStep};
use a3s_vec::index::scalar::ScalarCandidates;
use roaring::RoaringTreemap;

fn table() -> OrdinalTable {
    let ids: Vec<String> = ["doc-a", "doc-b", "doc-c"].into_iter().map(str::to_string).collect();
    OrdinalTable::build(&ids).expect("ordinal table must build")
}

#[test]
fn candidate_counts_prefer_fts_scores_then_the_selection() {
    let table = table();
    let bitmap: RoaringTreemap = [0_u64, 2].into_iter().collect();
    let selection = CandidateSelection {
        ids: OrdinalSet::new(&table, bitmap),
    };
    assert_eq!(selection.count(), 2);
    assert_eq!(selection.ids(), vec!["doc-a", "doc-c"]);
    assert!(selection.contains("doc-c"));
    assert!(!selection.contains("doc-b"));

    let mut plan = CandidatePlan {
        selection: None,
        fts_scores: None,
        used_ann: false,
        used_scalar: false,
        used_fts_index: false,
    };
    assert_eq!(plan.candidate_count(17), 17);
    plan.selection = Some(selection);
    assert_eq!(plan.candidate_count(17), 2);
    let scores = OrdinalScores::new_topk(
        &table,
        vec![(0, 1.0_f64.to_bits()), (1, 2.0_f64.to_bits()), (2, 3.0_f64.to_bits())],
        1,
    )
    .expect("scores must build");
    plan.fts_scores = Some(scores);
    assert_eq!(plan.candidate_count(17), 3);
}

#[test]
fn scalar_candidates_filter_by_id() {
    let table = table();
    let bitmap: RoaringTreemap = [0_u64, 1, 2].into_iter().collect();
    let mut candidates = ScalarCandidates {
        ids: OrdinalSet::new(&table, bitmap),
        exact: false,
    };
    assert_eq!(candidates.len(), 3);
    candidates.retain_ids(|id| id != "doc-b");
    assert_eq!(candidates.ids(), vec!["doc-a", "doc-c"]);
    assert!(!candidates.exact);
    let ids = candidates.into_ids();
    assert_eq!(ids.len(), 2);
}

#[test]
fn planner_routes_by_full_text_selection_size_and_exactness() {
    assert_eq!(plan_step(true, None, 10, false).unwrap(), PlanStep::FullText { filter_exact: true });
    assert_eq!(plan_step(true, None, 10, true).unwrap(), PlanStep::FullText { filter_exact: false });
    assert_eq!(plan_step(true, Some((5, true)), 10, true).unwrap(), PlanStep::FullText { filter_exact: true });
    assert_eq!(plan_step(false, None, 10, true).unwrap(), PlanStep::Ann);
    assert_eq!(plan_step(false, Some((4096, false)), 10, true).unwrap(), PlanStep::UseSelection);
    assert_eq!(plan_step(false, Some((640, false)), 10, true).unwrap(), PlanStep::UseSelection);
    assert_eq!(plan_step(false, Some((6400, false)), 100, true).unwrap(), PlanStep::UseSelection);
    assert_eq!(plan_step(false, Some((6401, false)), 100, true).unwrap(), PlanStep::Refine);
    assert_eq!(plan_step(false, Some((4097, false)), 10, true).unwrap(), PlanStep::Refine);
    assert_eq!(plan_step(false, Some((4097, true)), 10, true).unwrap(), PlanStep::AnnWithin);
    assert_eq!(plan_step(false, Some((4097, false)), 10, false).unwrap_err().code, ErrorCode::Internal);
    assert_eq!(plan_step(false, Some((1, true)), -1, true).unwrap_err().code, ErrorCode::InvalidArgument);
}
