use a3s_vec::index::fts::{count_terms, FtsIndex, PostingEntry};
use a3s_vec::ErrorCode;

fn tokens(text: &str) -> Vec<String> {
    text.split_whitespace().map(str::to_string).collect()
}

#[test]
fn term_counts_are_sorted_and_exact() {
    let counted = count_terms(&tokens("b a b c a b"));
    assert_eq!(
        counted,
        vec![("a".to_string(), 2), ("b".to_string(), 3), ("c".to_string(), 1)]
    );
    assert!(count_terms(&[]).is_empty());
}

#[test]
fn build_records_frequencies_lengths_and_totals() {
    let index = FtsIndex::build(&[(0, tokens("red fox red")), (2, tokens("blue fox"))])
        .expect("index must build");
    assert_eq!(index.total_tokens(), 5);
    assert_eq!(index.document_length(0), Some(3));
    assert_eq!(index.document_length(2), Some(2));
    assert_eq!(index.document_length(1), None);

    let red = index.posting("red").expect("red is indexed");
    assert_eq!(
        red.get(0),
        Some(PostingEntry {
            frequency: 2,
            document_length: 3
        })
    );
    assert_eq!(red.len(), 1);
    let fox = index.posting("fox").expect("fox is indexed");
    assert_eq!(fox.len(), 2);
    assert_eq!(
        fox.get(2),
        Some(PostingEntry {
            frequency: 1,
            document_length: 2
        })
    );
    assert!(index.posting("green").is_none());
}

#[test]
fn removing_a_document_undoes_adding_it() {
    let mut index = FtsIndex::build(&[(0, tokens("red fox"))]).expect("index must build");
    index
        .insert_text(&tokens("fox jumps fox"), 5)
        .expect("insert must succeed");
    assert_eq!(index.total_tokens(), 5);
    assert_eq!(index.posting("fox").expect("fox").len(), 2);
    assert_eq!(
        index.posting("fox").expect("fox").get(5),
        Some(PostingEntry {
            frequency: 2,
            document_length: 3
        })
    );
    assert!(index.posting("jumps").is_some());

    index
        .remove_text(&tokens("fox jumps fox"), 5)
        .expect("remove must succeed");
    assert_eq!(index.total_tokens(), 2);
    assert_eq!(index.document_length(5), None);
    assert!(index.posting("jumps").is_none());
    let fox = index.posting("fox").expect("fox stays for document 0");
    assert_eq!(fox.len(), 1);
    assert!(fox.get(5).is_none());
}

#[test]
fn index_errors_name_their_kind() {
    let mut index = FtsIndex::build(&[(1, tokens("a b"))]).expect("index must build");
    let error = index
        .insert_text(&tokens("c"), 1)
        .expect_err("an indexed ordinal cannot be added again");
    assert_eq!(error.code, ErrorCode::Internal);
    let error = index
        .remove_text(&tokens("c"), 9)
        .expect_err("an absent ordinal cannot be removed");
    assert_eq!(error.code, ErrorCode::Internal);
    assert_eq!(index.total_tokens(), 2);

    let error = FtsIndex::build(&[(3, tokens("x")), (3, tokens("y"))])
        .err()
        .expect("duplicate ordinals are refused");
    assert_eq!(error.code, ErrorCode::Internal);
}

#[test]
fn many_documents_compact_into_a_valid_dictionary() {
    let docs: Vec<(u64, Vec<String>)> = (0..100_u64)
        .map(|ordinal| (ordinal, vec![format!("term-{ordinal:03}"), "common".to_string()]))
        .collect();
    let mut index = FtsIndex::build(&docs).expect("index must build");
    assert_eq!(index.total_tokens(), 200);
    assert_eq!(index.posting("common").expect("common").len(), 100);
    index.finish_changes().expect("finishing changes succeeds");
    assert_eq!(index.posting("term-042").expect("term").len(), 1);
    // An empty document still counts as indexed.
    index.insert_text(&[], 500).expect("empty document");
    assert_eq!(index.document_length(500), Some(0));
}

#[test]
fn document_changes_make_a_new_generation() {
    let base = FtsIndex::build(&[(0, tokens("red fox")), (2, tokens("blue fox"))])
        .expect("index must build");
    let changes = vec![
        (0, Some(tokens("red fox")), Some(tokens("red dog"))),
        (2, Some(tokens("blue fox")), None),
        (5, None, Some(tokens("new doc"))),
        (9, None, None),
    ];
    let next = base.apply_document_changes(&changes).expect("changes apply");
    assert_eq!(next.total_tokens(), 4);
    assert!(next.posting("fox").is_none());
    assert_eq!(next.posting("dog").expect("dog").len(), 1);
    assert_eq!(next.document_length(2), None);
    assert_eq!(next.document_length(5), Some(2));
    // The earlier generation is untouched.
    assert_eq!(base.total_tokens(), 4);
    assert_eq!(base.posting("fox").expect("fox").len(), 2);

    // A document whose tokens did not change is skipped, even if unknown.
    let same = base
        .apply_document_changes(&[(7, Some(tokens("x")), Some(tokens("x")))])
        .expect("unchanged text is skipped");
    assert_eq!(same.total_tokens(), 4);

    let error = base
        .apply_document_changes(&[(7, Some(tokens("x")), None)])
        .err()
        .expect("an unknown document cannot be dropped");
    assert_eq!(error.code, ErrorCode::Internal);
}

#[test]
fn conjunctive_candidates_hold_every_term_within_the_allowed_set() {
    let index = FtsIndex::build(&[
        (0, tokens("red fox red")),
        (1, tokens("blue fox")),
        (3, tokens("red fox jumps")),
        (5, tokens("red hen")),
    ])
    .expect("index must build");
    let found = index.conjunctive_candidates(&tokens("fox red"), None);
    assert_eq!(
        found,
        vec![
            (
                0,
                vec![
                    PostingEntry { frequency: 1, document_length: 3 },
                    PostingEntry { frequency: 2, document_length: 3 },
                ]
            ),
            (
                3,
                vec![
                    PostingEntry { frequency: 1, document_length: 3 },
                    PostingEntry { frequency: 1, document_length: 3 },
                ]
            ),
        ]
    );
    let allowed: roaring::RoaringTreemap = [3u64, 5].into_iter().collect();
    let within = index.conjunctive_candidates(&tokens("red fox"), Some(&allowed));
    assert_eq!(within.iter().map(|(ordinal, _)| *ordinal).collect::<Vec<_>>(), vec![3]);
    assert!(index.conjunctive_candidates(&tokens("red cat"), None).is_empty());
    assert!(index.conjunctive_candidates(&[], None).is_empty());
}
