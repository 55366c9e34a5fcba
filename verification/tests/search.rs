use a3s_vec::index::search::{VisitedSet, DENSE_VISITED_MAX_SLOTS};

#[test]
fn visited_set_deduplicates_dense_ordinals() {
    let mut visited = VisitedSet::new(130, 8);
    assert!(visited.insert(0));
    assert!(visited.insert(64));
    assert!(visited.insert(129));
    assert!(!visited.insert(64));
    assert!(!visited.insert(0));
}

#[test]
fn visited_set_uses_hash_fallback_for_empty_or_huge_spaces() {
    let mut empty = VisitedSet::new(0, 8);
    assert!(empty.insert(u64::MAX));
    assert!(!empty.insert(u64::MAX));

    let mut huge = VisitedSet::new(DENSE_VISITED_MAX_SLOTS + 1, 8);
    assert!(huge.insert(17));
    assert!(!huge.insert(17));
}

#[test]
fn dense_visited_set_refuses_ordinals_past_its_words() {
    let mut visited = VisitedSet::new(65, 4);
    assert!(visited.insert(127));
    assert!(!visited.insert(128));
    assert!(!visited.insert(1_000));
    assert!(!visited.insert(127));
}
