use a3s_vec::index::fts::expression::{FtsExpr, FtsExprKind, FtsModifier};
use a3s_vec::index::fts::FtsIndex;
use roaring::RoaringTreemap;

fn tokens(text: &str) -> Vec<String> {
    text.split_whitespace().map(str::to_string).collect()
}

fn corpus() -> FtsIndex {
    FtsIndex::build(&[
        (0, tokens("rust workspace symbol")),
        (1, tokens("rust search engine")),
        (2, tokens("python workspace")),
        (3, tokens("rust workspace search")),
    ])
    .expect("index must build")
}

fn term(text: &str, modifier: FtsModifier) -> FtsExpr {
    FtsExpr { kind: FtsExprKind::Term(text.to_string()), modifier }
}

fn phrase(words: &[&str]) -> FtsExpr {
    FtsExpr {
        kind: FtsExprKind::Phrase(words.iter().map(|word| word.to_string()).collect()),
        modifier: FtsModifier::Optional,
    }
}

fn and(children: Vec<FtsExpr>) -> FtsExpr {
    FtsExpr { kind: FtsExprKind::And(children), modifier: FtsModifier::Optional }
}

fn or(children: Vec<FtsExpr>) -> FtsExpr {
    FtsExpr { kind: FtsExprKind::Or(children), modifier: FtsModifier::Optional }
}

fn members(bitmap: &RoaringTreemap) -> Vec<u64> {
    bitmap.iter().collect()
}

fn check(index: &FtsIndex, expression: &FtsExpr, expected: &[u64]) {
    assert_eq!(members(&index.expression_candidates(expression)), expected);
    for ordinal in 0..5 {
        assert_eq!(index.candidate_matches(expression, ordinal), expected.contains(&ordinal));
    }
}

#[test]
fn terms_and_phrases_select_their_documents() {
    let index = corpus();
    check(&index, &term("rust", FtsModifier::Optional), &[0, 1, 3]);
    check(&index, &term("missing", FtsModifier::Optional), &[]);
    check(&index, &phrase(&["rust", "workspace"]), &[0, 3]);
    check(&index, &phrase(&["rust", "missing"]), &[]);
    check(&index, &phrase(&[]), &[]);
    check(&index, &FtsExpr { kind: FtsExprKind::Empty, modifier: FtsModifier::Optional }, &[]);
}

#[test]
fn conjunctions_need_every_clause_and_no_prohibited_one() {
    let index = corpus();
    let both = and(vec![term("rust", FtsModifier::Optional), term("workspace", FtsModifier::Must)]);
    check(&index, &both, &[0, 3]);
    let without = and(vec![
        term("rust", FtsModifier::Optional),
        term("search", FtsModifier::MustNot),
    ]);
    check(&index, &without, &[0]);
    let only_prohibited = and(vec![term("rust", FtsModifier::MustNot)]);
    check(&index, &only_prohibited, &[]);
    let none = and(vec![term("python", FtsModifier::Optional), term("rust", FtsModifier::Optional)]);
    check(&index, &none, &[]);
}

#[test]
fn disjunctions_take_required_or_optional_clauses() {
    let index = corpus();
    let either = or(vec![term("python", FtsModifier::Optional), term("engine", FtsModifier::Optional)]);
    check(&index, &either, &[1, 2]);
    let required = or(vec![
        term("python", FtsModifier::Optional),
        term("workspace", FtsModifier::Must),
        term("rust", FtsModifier::Must),
    ]);
    check(&index, &required, &[0, 3]);
    let prohibited = or(vec![
        term("workspace", FtsModifier::Optional),
        term("symbol", FtsModifier::MustNot),
    ]);
    check(&index, &prohibited, &[2, 3]);
    let nested = or(vec![
        and(vec![term("rust", FtsModifier::Optional), term("search", FtsModifier::Optional)]),
        phrase(&["python", "workspace"]),
    ]);
    check(&index, &nested, &[1, 2, 3]);
}

#[test]
fn estimates_follow_posting_sizes() {
    let index = corpus();
    assert_eq!(index.estimated_candidates(&term("rust", FtsModifier::Optional)), 3);
    assert_eq!(index.estimated_candidates(&phrase(&["rust", "python"])), 1);
    assert_eq!(index.estimated_candidates(&phrase(&["rust", "missing"])), 0);
    let conjunction = and(vec![
        term("rust", FtsModifier::Optional),
        term("workspace", FtsModifier::Must),
        term("python", FtsModifier::MustNot),
    ]);
    assert_eq!(index.estimated_candidates(&conjunction), 3);
    let optional = or(vec![term("rust", FtsModifier::Optional), term("python", FtsModifier::Optional)]);
    assert_eq!(index.estimated_candidates(&optional), 4);
    let required = or(vec![term("rust", FtsModifier::Must), term("engine", FtsModifier::Must)]);
    assert_eq!(index.estimated_candidates(&required), 1);
}

#[test]
fn scans_are_preferred_for_broad_queries() {
    let index = corpus();
    assert!(index.prefers_scan_for_expression(&term("rust", FtsModifier::Optional), false));
    assert!(!index.prefers_scan_for_expression(&term("python", FtsModifier::Optional), false));
    assert!(index.prefers_scan_for_expression(&phrase(&["rust", "workspace"]), true));
    assert!(!index.prefers_scan_for_expression(&phrase(&["rust", "python"]), true));
}

#[test]
fn retained_candidates_keep_or_drop_matches() {
    let index = corpus();
    let all: RoaringTreemap = (0..4).collect();
    let rust = term("rust", FtsModifier::Optional);
    assert_eq!(members(&index.retain_matching(&all, &rust, true)), vec![0, 1, 3]);
    assert_eq!(members(&index.retain_matching(&all, &rust, false)), vec![2]);
}

#[test]
fn candidate_matches_covers_nested_boolean_and_phrase_leaves() {
    let index = FtsIndex::build(&[
        (0, tokens("rust vector database")),
        (1, tokens("rust database engine")),
        (2, tokens("python vector search")),
        (3, tokens("legacy rust")),
    ])
    .expect("index must build");

    let and_expr = and(vec![term("rust", FtsModifier::Optional), term("legacy", FtsModifier::MustNot)]);
    assert!(index.candidate_matches(&and_expr, 0));
    assert!(!index.candidate_matches(&and_expr, 3));

    let and_only_neg = and(vec![term("legacy", FtsModifier::MustNot)]);
    assert!(!index.candidate_matches(&and_only_neg, 0));

    let or_must = or(vec![
        term("rust", FtsModifier::Must),
        term("vector", FtsModifier::Must),
        term("legacy", FtsModifier::MustNot),
    ]);
    assert!(index.candidate_matches(&or_must, 0));
    assert!(!index.candidate_matches(&or_must, 1));
    assert!(!index.candidate_matches(&or_must, 3));

    let or_optional = or(vec![term("python", FtsModifier::Optional), term("missing", FtsModifier::Optional)]);
    assert!(index.candidate_matches(&or_optional, 2));
    assert!(!index.candidate_matches(&or_optional, 0));

    let rust_vector = phrase(&["rust", "vector"]);
    assert!(index.candidate_matches(&rust_vector, 0));
    assert!(!index.candidate_matches(&rust_vector, 1));

    let and_fail = and(vec![term("rust", FtsModifier::Optional), term("zzzz", FtsModifier::Optional)]);
    assert!(!index.candidate_matches(&and_fail, 0));
    assert!(index.expression_candidates(&and_fail).is_empty());
}
