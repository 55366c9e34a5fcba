use a3s_vec::index::fts::trigram::{char_trigrams, TrigramTermIndex};

fn strings(items: &[&str]) -> Vec<String> {
    items.iter().map(|item| item.to_string()).collect()
}

#[test]
fn char_trigrams_are_overlapping_and_unicode_aware() {
    assert_eq!(char_trigrams("ab"), Vec::<String>::new());
    assert_eq!(char_trigrams("rust"), vec!["rus".to_string(), "ust".to_string()]);
    assert_eq!(
        char_trigrams("\u{4e2d}\u{56fd}\u{6587}"),
        vec!["\u{4e2d}\u{56fd}\u{6587}".to_string()]
    );
}

#[test]
fn terms_containing_all_intersects_postings() {
    let index = TrigramTermIndex::from_terms(&["rust", "rusty", "crust", "python"]);
    let required = vec!["rus".to_string(), "ust".to_string()];
    let hits = index.terms_containing_all(&required);
    assert!(hits.contains(&"rust".to_string()));
    assert!(hits.contains(&"rusty".to_string()));
    assert!(hits.contains(&"crust".to_string()));
    assert!(!hits.contains(&"python".to_string()));
}

#[test]
fn remove_term_drops_empty_trigram_postings() {
    let mut index = TrigramTermIndex::from_terms(&["rust", "dust"]);
    index.remove_term("rust");
    assert!(index.terms_containing_all(&strings(&["rus"])).is_empty());
    assert!(index.terms_containing_all(&strings(&["ust"])).contains(&"dust".to_string()));
    index.remove_term("dust");
    assert!(index.is_empty());
}

#[test]
fn containing_all_returns_ascending_terms_and_nothing_for_no_grams() {
    let index = TrigramTermIndex::from_terms(&["trust", "rust", "crust", "dust", "rusty"]);
    assert_eq!(
        index.terms_containing_all(&strings(&["ust"])),
        strings(&["crust", "dust", "rust", "rusty", "trust"])
    );
    assert_eq!(index.terms_containing_all(&strings(&["rus", "ust"])), strings(&["crust", "rust", "rusty", "trust"]));
    assert!(index.terms_containing_all(&[]).is_empty());
    assert!(index.terms_containing_all(&strings(&["ust", "zzz"])).is_empty());
}

#[test]
fn sharing_at_least_counts_repeated_query_grams() {
    let index = TrigramTermIndex::from_terms(&["rust", "rusty", "dust", "python"]);
    assert_eq!(
        index.terms_sharing_at_least(&strings(&["rus", "ust", "sty"]), 2),
        strings(&["rust", "rusty"])
    );
    assert_eq!(
        index.terms_sharing_at_least(&strings(&["rus", "ust", "sty"]), 1),
        strings(&["dust", "rust", "rusty"])
    );
    assert_eq!(
        index.terms_sharing_at_least(&strings(&["ust", "ust"]), 2),
        strings(&["dust", "rust", "rusty"])
    );
    assert!(index.terms_sharing_at_least(&strings(&["rus"]), 0).is_empty());
    assert!(index.terms_sharing_at_least(&[], 1).is_empty());
    assert!(index.terms_sharing_at_least(&strings(&["qqq"]), 1).is_empty());
}

#[test]
fn short_terms_have_no_trigrams_and_are_never_found() {
    let mut index = TrigramTermIndex::from_terms(&["ab", "x"]);
    assert!(index.is_empty());
    index.insert_term("abc");
    assert_eq!(index.terms_containing_all(&strings(&["abc"])), strings(&["abc"]));
    index.insert_term("abc");
    assert_eq!(index.terms_containing_all(&strings(&["abc"])), strings(&["abc"]));
}

#[test]
fn removing_an_inserted_term_restores_the_index() {
    let mut index = TrigramTermIndex::from_terms(&["banana", "bandana"]);
    let before = index.terms_sharing_at_least(&char_trigrams("bananas"), 1);
    index.insert_term("cabana");
    assert_eq!(index.terms_containing_all(&strings(&["aba"])), strings(&["cabana"]));
    index.remove_term("cabana");
    assert!(index.terms_containing_all(&strings(&["aba"])).is_empty());
    assert_eq!(index.terms_sharing_at_least(&char_trigrams("bananas"), 1), before);
    index.remove_term("not-there");
    assert_eq!(index.terms_sharing_at_least(&char_trigrams("bananas"), 1), before);
}

#[test]
fn default_index_is_empty() {
    let index = TrigramTermIndex::default();
    assert!(index.is_empty());
    assert!(index.terms_containing_all(&strings(&["abc"])).is_empty());
}

#[test]
fn lookups_follow_any_mix_of_insertions_and_removals() {
    let mut index = TrigramTermIndex::default();
    index.insert_term("workspace");
    index.insert_term("worker");
    index.insert_term("network");
    index.remove_term("worker");
    index.insert_term("rework");
    index.remove_term("absent");
    let required = vec!["wor".to_string(), "ork".to_string()];
    assert_eq!(
        index.terms_containing_all(&required),
        vec!["network".to_string(), "rework".to_string(), "workspace".to_string()]
    );
    index.remove_term("network");
    index.remove_term("rework");
    index.remove_term("workspace");
    assert!(index.is_empty());
}
