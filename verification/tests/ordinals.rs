use a3s_vec::index::ordinals::{OrdinalScores, OrdinalSet, OrdinalTable};
use roaring::RoaringTreemap;

fn doc_ids() -> Vec<String> {
    ["doc-a", "doc-b", "doc-c"]
        .into_iter()
        .map(str::to_string)
        .collect()
}

#[test]
fn ordinal_set_resolves_members_without_materializing_primary_keys() {
    let table = OrdinalTable::build(&doc_ids()).expect("ordinal table must build");
    let bitmap: RoaringTreemap = [
        table.ordinal("doc-a").expect("doc-a ordinal"),
        table.ordinal("doc-c").expect("doc-c ordinal"),
    ]
    .into_iter()
    .collect();
    let mut set = OrdinalSet::new(&table, bitmap);

    assert!(set.contains("doc-a"));
    assert!(!set.contains("doc-b"));
    assert_eq!(set.ids(), vec!["doc-a", "doc-c"]);

    set.retain_ids(|id| id.ends_with('c'));
    assert_eq!(set.ids(), vec!["doc-c"]);
}

#[test]
fn ordinal_reverse_lookup_is_persistent_and_append_only() {
    let documents: Vec<String> = (0..128).map(|index| format!("doc-{index:03}")).collect();
    let table = OrdinalTable::build(&documents).expect("ordinal table must build");
    let mut next = table.clone();
    assert!(table.ids_ptr_eq(&next));

    next.remove_live("doc-000");
    next.ensure_live("doc-000")
        .expect("existing ordinal must revive");
    assert!(table.ids_ptr_eq(&next));

    let appended = next
        .ensure_live("doc-new")
        .expect("new ordinal must append");
    assert_eq!(appended, 128);
    assert_eq!(next.id(appended), Some("doc-new"));
    assert_eq!(table.id(appended), None);
    assert_eq!(table.allocated_len(), 128);
    assert_eq!(next.allocated_len(), 129);
    assert!(table.validates(&documents));
}

#[test]
fn ordinals_follow_first_occurrence_and_revive_in_place() {
    let ids: Vec<String> = ["b", "a", "b", "c"].into_iter().map(str::to_string).collect();
    let mut table = OrdinalTable::build(&ids).expect("ordinal table must build");
    assert_eq!(table.ordinal("b"), Some(0));
    assert_eq!(table.ordinal("a"), Some(1));
    assert_eq!(table.ordinal("c"), Some(2));
    assert_eq!(table.ordinal("d"), None);
    assert_eq!(table.allocated_len(), 3);

    table.remove_live("a");
    assert!(!table.live().contains(1));
    assert_eq!(table.id(1), Some("a"));
    assert_eq!(table.ensure_live("a").expect("revive must succeed"), 1);
    assert!(table.live().contains(1));
    assert_eq!(table.allocated_len(), 3);
}

#[test]
fn validation_compares_live_ordinals_with_the_documents() {
    let ids = doc_ids();
    let mut table = OrdinalTable::build(&ids).expect("ordinal table must build");
    assert!(table.validates(&ids));
    // A document the table has never seen fails validation.
    let mut extra = ids.clone();
    extra.push("doc-z".to_string());
    assert!(!table.validates(&extra));
    // A retired ordinal must not be live for the remaining documents.
    table.remove_live("doc-b");
    assert!(!table.validates(&ids));
    let remaining: Vec<String> = ["doc-a", "doc-c"].into_iter().map(str::to_string).collect();
    assert!(table.validates(&remaining));
}

#[test]
fn compaction_waits_for_enough_retired_ordinals() {
    let ids: Vec<String> = (0..200).map(|index| format!("id-{index:03}")).collect();
    let mut table = OrdinalTable::build(&ids).expect("ordinal table must build");
    assert!(!table.should_compact());
    for id in ids.iter().take(63) {
        table.remove_live(id);
    }
    // 63 retired, 137 live: the limit is max(64, ceil(137 / 8)) = 64.
    assert!(!table.should_compact());
    table.remove_live(&ids[63]);
    assert!(table.should_compact());
}

#[test]
fn ordinal_set_len_and_empty_table() {
    let table = OrdinalTable::new();
    assert_eq!(table.allocated_len(), 0);
    assert_eq!(table.id(0), None);
    let bitmap: RoaringTreemap = [3_u64, 5].into_iter().collect();
    let set = OrdinalSet::new(&table, bitmap);
    assert_eq!(set.len(), 2);
    // Members without an id are skipped.
    assert!(set.ids().is_empty());
    assert!(!set.contains("anything"));
    assert!(table.validates(&[]));
}

fn bits(score: f64) -> u64 {
    score.to_bits()
}

fn score_entries(scores: &OrdinalScores) -> Vec<(String, f64)> {
    scores
        .entries()
        .into_iter()
        .map(|(id, score)| (id.to_string(), f64::from_bits(score)))
        .collect()
}

#[test]
fn ordinal_scores_resolve_borrowed_primary_keys() {
    let table = OrdinalTable::build(&doc_ids()).expect("ordinal table must build");
    let scores = vec![
        (table.ordinal("doc-a").expect("doc-a ordinal"), bits(2.0)),
        (table.ordinal("doc-c").expect("doc-c ordinal"), bits(1.0)),
    ];
    let scores = OrdinalScores::new(&table, scores).expect("score mapping must be valid");

    assert_eq!(scores.len(), 2);
    assert_eq!(
        score_entries(&scores),
        vec![("doc-a".to_string(), 2.0), ("doc-c".to_string(), 1.0)]
    );
}

#[test]
fn ordinal_scores_reject_invalid_generations() {
    let table = OrdinalTable::build(&doc_ids()).expect("ordinal table must build");
    let first = table.ordinal("doc-a").expect("doc-a ordinal");
    let second = table.ordinal("doc-b").expect("doc-b ordinal");

    assert!(OrdinalScores::new(&table, vec![(second, bits(1.0)), (first, bits(2.0))]).is_err());
    assert!(OrdinalScores::new(&table, vec![(first, bits(f64::NAN))]).is_err());
    assert!(OrdinalScores::new(&table, vec![(99, bits(1.0))]).is_err());

    let mut retired = table;
    retired.remove_live("doc-a");
    assert!(OrdinalScores::new(&retired, vec![(first, bits(1.0))]).is_err());
}

#[test]
fn ordinal_scores_topk_uses_primary_key_ties_and_keeps_candidate_count() {
    let initial = vec!["z-base".to_string()];
    let mut table = OrdinalTable::build(&initial).expect("ordinal table must build");
    let base = table.ordinal("z-base").expect("base ordinal must exist");
    let later = table
        .ensure_live("a-later")
        .expect("later ordinal must be allocated");
    let scores = OrdinalScores::new_topk(&table, vec![(base, bits(1.0)), (later, bits(1.0))], 1)
        .expect("top-k scores must build");

    assert_eq!(scores.len(), 1);
    assert_eq!(scores.candidate_count(), 2);
    assert_eq!(score_entries(&scores), vec![("a-later".to_string(), 1.0)]);
}

#[test]
fn ordinal_scores_reject_zero_negative_and_infinite_scores() {
    let table = OrdinalTable::build(&doc_ids()).expect("ordinal table must build");
    let first = table.ordinal("doc-a").expect("doc-a ordinal");
    for score in [0.0, -0.0, -1.0, f64::INFINITY, f64::NEG_INFINITY] {
        let error = OrdinalScores::new(&table, vec![(first, bits(score))])
            .err()
            .expect("invalid score must be rejected");
        assert_eq!(error.code, a3s_vec::ErrorCode::Internal);
    }
    assert!(OrdinalScores::new(&table, vec![(first, bits(f64::MIN_POSITIVE))]).is_ok());
    assert!(OrdinalScores::new(&table, vec![(first, bits(f64::MAX))]).is_ok());
    // A repeated ordinal is not strictly increasing.
    assert!(OrdinalScores::new(&table, vec![(first, bits(1.0)), (first, bits(2.0))]).is_err());
}

#[test]
fn ordinal_scores_topk_keeps_the_best_in_ordinal_order() {
    let ids: Vec<String> = (0..8).map(|index| format!("doc-{index}")).collect();
    let table = OrdinalTable::build(&ids).expect("ordinal table must build");
    let offered: Vec<(u64, u64)> = [0.5, 3.0, 1.0, 3.0, 0.25, 2.0, 9.0, 1.5]
        .into_iter()
        .enumerate()
        .map(|(ordinal, score)| (ordinal as u64, bits(score)))
        .collect();
    let top = OrdinalScores::new_topk(&table, offered.clone(), 3).expect("top-k must build");
    assert_eq!(top.candidate_count(), 8);
    assert_eq!(
        score_entries(&top),
        vec![
            ("doc-1".to_string(), 3.0),
            ("doc-3".to_string(), 3.0),
            ("doc-6".to_string(), 9.0)
        ]
    );
    // Ties at the cut go to the earlier id.
    let top = OrdinalScores::new_topk(&table, offered.clone(), 2).expect("top-k must build");
    assert_eq!(
        score_entries(&top),
        vec![("doc-1".to_string(), 3.0), ("doc-6".to_string(), 9.0)]
    );
    // A limit of at least the candidate count keeps everything.
    let all = OrdinalScores::new_topk(&table, offered.clone(), 8).expect("top-k must build");
    assert_eq!(all.len(), 8);
    let none = OrdinalScores::new_topk(&table, offered, 0).expect("top-k must build");
    assert_eq!(none.len(), 0);
    assert_eq!(none.candidate_count(), 8);
}

#[test]
fn membership_changes_allocate_revive_and_retire_ordinals() {
    let mut table = OrdinalTable::build(&doc_ids()).expect("ordinal table must build");
    table.apply_membership_changes(&[
        ("doc-b".to_string(), true, false),
        ("doc-d".to_string(), false, true),
        ("doc-x".to_string(), false, false),
        ("doc-c".to_string(), true, true),
        ("doc-b".to_string(), false, true),
        ("doc-a".to_string(), true, false),
    ]);
    assert_eq!(table.allocated_len(), 4);
    assert_eq!(table.ordinal("doc-d"), Some(3));
    assert_eq!(table.ordinal("doc-x"), None);
    assert_eq!(table.live().iter().collect::<Vec<_>>(), vec![1, 2, 3]);
}
