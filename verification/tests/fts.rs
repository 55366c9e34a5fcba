use a3s_vec::index::fts::document_lengths::DocumentLengths;
use a3s_vec::index::fts::posting_list::PostingList;
use a3s_vec::index::fts::term_dictionary::TermDictionary;
use a3s_vec::index::fts::{compaction_limit, use_dense_score_scratch, PostingEntry, DENSE_SCORE_MIN_VISITS};
use a3s_vec::index::limits::MIN_DELTA_COMPACTION;
use a3s_vec::ErrorCode;
use roaring::RoaringTreemap;

fn entry(frequency: u32) -> PostingEntry {
    PostingEntry {
        frequency,
        document_length: 8,
    }
}

#[test]
fn dense_score_scratch_is_bounded_by_visits_and_ordinal_span() {
    assert!(!use_dense_score_scratch(DENSE_SCORE_MIN_VISITS - 1, 1));
    assert!(use_dense_score_scratch(DENSE_SCORE_MIN_VISITS, 32_768));
    assert!(!use_dense_score_scratch(DENSE_SCORE_MIN_VISITS, 32_769));
}

#[test]
fn posting_document_length_reuses_the_frequency_entry_padding() {
    assert_eq!(
        std::mem::size_of::<(u64, PostingEntry)>(),
        std::mem::size_of::<(u64, u32)>()
    );
}

#[test]
fn dense_score_scratch_saturates_the_span_bound() {
    assert!(use_dense_score_scratch(usize::MAX, usize::MAX));
    assert!(!use_dense_score_scratch(0, 0));
}

#[test]
fn compaction_limit_scales_with_the_base_and_is_clamped() {
    assert_eq!(compaction_limit(0), 64);
    assert_eq!(compaction_limit(512), 64);
    assert_eq!(compaction_limit(8 * 100), 100);
    assert_eq!(compaction_limit(8 * 100 + 1), 101);
    assert_eq!(compaction_limit(usize::MAX), 2_048);
}

#[test]
fn cloned_lengths_share_the_base_and_shadow_small_changes() {
    let original = DocumentLengths::from_sorted_entries(vec![(1, 3), (4, 7)]).expect("lengths must build");
    let mut changed = original.clone();
    assert!(original.base_ptr_eq(&changed));

    assert_eq!(changed.remove(1), Some(3));
    changed.insert(2, 5).expect("insert must succeed");
    changed.insert(1, 9).expect("reinsert must succeed");

    assert_eq!(original.get(1), Some(3));
    assert_eq!(changed.get(1), Some(9));
    assert_eq!(changed.get(2), Some(5));
    assert_eq!(changed.keys(), vec![1, 2, 4]);
}

#[test]
fn bounded_changes_compact_into_direct_address_slots() {
    let mut lengths = DocumentLengths::from_sorted_entries(vec![]).expect("lengths must build");
    for ordinal in 0..u64::try_from(MIN_DELTA_COMPACTION).expect("limit fits u64") {
        lengths.insert(ordinal, 4).expect("insert must succeed");
    }
    lengths.finish_changes().expect("compaction must succeed");

    assert_eq!(lengths.change_len(), 0);
    assert_eq!(lengths.base_len(), MIN_DELTA_COMPACTION);
    let live: RoaringTreemap = (0..u64::try_from(MIN_DELTA_COMPACTION).expect("limit fits u64")).collect();
    assert!(lengths.validates(MIN_DELTA_COMPACTION, &live));
}

#[test]
fn document_lengths_reject_duplicate_and_cover_delta_compaction() {
    assert!(DocumentLengths::from_sorted_entries(vec![(0, 1), (0, 2)]).is_err());

    let mut lengths = DocumentLengths::from_sorted_entries(vec![(0, 3), (2, 5)]).expect("base");
    assert!(lengths.contains_key(0));
    assert!(!lengths.contains_key(1));
    assert_eq!(lengths.get(2), Some(5));
    assert!(!lengths.is_empty());
    assert_eq!(lengths.len(), 2);

    lengths.insert(1, 4).expect("insert gap");
    assert!(lengths.insert(1, 9).is_err());
    lengths.remove(2).expect("remove");
    assert!(!lengths.contains_key(2));
    lengths.insert(2, 7).expect("reinsert");

    for ordinal in 10..140_u64 {
        lengths.insert(ordinal, 1).expect("bulk insert");
    }
    assert!(lengths.len() > 64);
    let keys = lengths.keys();
    assert!(keys.contains(&0));
    assert!(keys.contains(&139));
}

#[test]
fn document_length_errors_name_their_kind() {
    let duplicate = DocumentLengths::from_sorted_entries(vec![(5, 1), (5, 2)]).err().expect("duplicate");
    assert_eq!(duplicate.code, ErrorCode::Internal);
    let mut lengths = DocumentLengths::from_sorted_entries(vec![(0, 1)]).expect("base");
    let again = lengths.insert(0, 2).err().expect("existing ordinal");
    assert_eq!(again.code, ErrorCode::Internal);
    assert_eq!(lengths.get(0), Some(1));
    assert_eq!(lengths.remove(3), None);
}

#[test]
fn document_lengths_iterate_in_ordinal_order_after_compaction() {
    let mut lengths = DocumentLengths::from_sorted_entries(vec![(2, 20), (7, 70)]).expect("base");
    lengths.insert(4, 40).expect("insert");
    assert_eq!(lengths.remove(7), Some(70));
    assert_eq!(lengths.iter(), vec![(2, 20), (4, 40)]);
    assert_eq!(lengths.values(), vec![20, 40]);
    for ordinal in 100..200_u64 {
        lengths.insert(ordinal, 1).expect("bulk insert");
    }
    lengths.finish_changes().expect("compaction");
    assert_eq!(lengths.change_len(), 0);
    assert_eq!(lengths.len(), 102);
    assert_eq!(lengths.get(4), Some(40));
    assert_eq!(lengths.get(7), None);
    let live: RoaringTreemap = lengths.keys().into_iter().collect();
    assert!(lengths.validates(1_000, &live));
    let mut missing = live.clone();
    missing.remove(4);
    assert!(!lengths.validates(1_000, &missing));
}

#[test]
fn cloned_postings_share_the_base_and_merge_changes_in_ordinal_order() {
    let original = PostingList::from_sorted_entries(
        (0_u64..128)
            .filter(|ordinal| ordinal % 2 == 0)
            .map(|ordinal| (ordinal, entry(1)))
            .collect(),
    );
    let mut changed = original.clone();
    assert!(original.base_ptr_eq(&changed));

    changed.insert(3, entry(2)).expect("insert must succeed");
    changed.insert(4, entry(3)).expect("replace must succeed");
    assert!(changed.remove(6));
    assert!(!changed.remove(7));

    assert_eq!(original.get(3), None);
    assert_eq!(original.get(4), Some(entry(1)));
    assert_eq!(original.get(6), Some(entry(1)));
    assert_eq!(changed.get(3), Some(entry(2)));
    assert_eq!(changed.get(4), Some(entry(3)));
    assert_eq!(changed.get(6), None);
    assert_eq!(changed.len(), original.len());
    let ordinals: Vec<u64> = changed.iter().into_iter().map(|(ordinal, _)| ordinal).collect();
    assert!(ordinals.windows(2).all(|pair| pair[0] < pair[1]));
}

#[test]
fn bounded_changes_compact_into_a_new_shared_base() {
    let original = PostingList::from_sorted_entries((0_u64..512).map(|ordinal| (ordinal, entry(1))).collect());
    assert_eq!(compaction_limit(original.len()), MIN_DELTA_COMPACTION);
    let mut changed = original.clone();
    for ordinal in 0..u64::try_from(MIN_DELTA_COMPACTION).expect("limit fits u64") {
        changed.insert(ordinal, entry(2)).expect("replace must succeed");
    }

    assert_eq!(changed.change_len(), 0);
    assert!(!original.base_ptr_eq(&changed));
    assert_eq!(changed.len(), original.len());
    assert!(changed
        .iter()
        .into_iter()
        .take(MIN_DELTA_COMPACTION)
        .all(|(_, value)| value == entry(2)));
}

#[test]
fn posting_list_single_and_validation_against_lengths() {
    let single = PostingList::single(9, PostingEntry { frequency: 2, document_length: 5 });
    assert_eq!(single.len(), 1);
    assert!(!single.is_empty());
    assert_eq!(single.get(9), Some(PostingEntry { frequency: 2, document_length: 5 }));
    let lengths = DocumentLengths::from_sorted_entries(vec![(9, 5)]).expect("lengths");
    assert!(single.validates(&lengths));
    let other_lengths = DocumentLengths::from_sorted_entries(vec![(9, 6)]).expect("lengths");
    assert!(!single.validates(&other_lengths));
    let too_frequent = PostingList::single(9, PostingEntry { frequency: 6, document_length: 5 });
    assert!(!too_frequent.validates(&lengths));
}

fn posting(ordinal: u64) -> std::sync::Arc<PostingList> {
    std::sync::Arc::new(PostingList::single(
        ordinal,
        PostingEntry {
            frequency: 1,
            document_length: 1,
        },
    ))
}

#[test]
fn cloned_dictionaries_share_the_base_and_merge_changes_in_term_order() {
    let original = TermDictionary::from_sorted_entries(vec![
        ("alpha".to_string(), posting(0)),
        ("gamma".to_string(), posting(1)),
    ]);
    let mut changed = original.clone();
    assert!(original.base_ptr_eq(&changed));

    changed
        .insert("beta".to_string(), posting(2))
        .expect("insert must succeed");
    changed
        .insert("gamma".to_string(), posting(3))
        .expect("replace must succeed");
    assert!(changed.remove("alpha"));
    assert!(!changed.remove("missing"));

    assert!(original.get("alpha").is_some());
    assert!(changed.get("alpha").is_none());
    assert!(changed.get("beta").is_some());
    let terms: Vec<_> = changed.iter().into_iter().map(|(term, _)| term).collect();
    assert_eq!(terms, vec!["beta", "gamma"]);
}

#[test]
fn a_large_batch_compacts_once_after_changes_finish() {
    let mut dictionary = TermDictionary::from_sorted_entries(Vec::new());
    for ordinal in 0..u64::try_from(MIN_DELTA_COMPACTION).expect("limit fits u64") {
        dictionary
            .insert(format!("term-{ordinal:03}"), posting(ordinal))
            .expect("insert must succeed");
    }
    assert_eq!(dictionary.change_len(), MIN_DELTA_COMPACTION);
    dictionary.finish_changes();

    assert_eq!(dictionary.change_len(), 0);
    assert_eq!(dictionary.base_len(), MIN_DELTA_COMPACTION);
    assert!(dictionary.validates());
}

#[test]
fn term_dictionary_get_sees_replacements_and_removals() {
    let mut dictionary = TermDictionary::from_sorted_entries(vec![
        ("apple".to_string(), posting(0)),
        ("pear".to_string(), posting(1)),
    ]);
    dictionary
        .insert("pear".to_string(), posting(7))
        .expect("replace must succeed");
    let pear = dictionary.get("pear").expect("pear must be present");
    assert_eq!(pear.get(7).map(|entry| entry.frequency), Some(1));
    assert_eq!(pear.get(1), None);
    assert!(dictionary.remove("apple"));
    assert!(dictionary.get("apple").is_none());
    assert!(dictionary.validates());
    // Re-inserting a removed base term brings it back.
    dictionary
        .insert("apple".to_string(), posting(9))
        .expect("insert must succeed");
    let terms: Vec<_> = dictionary.iter().into_iter().map(|(term, _)| term).collect();
    assert_eq!(terms, vec!["apple", "pear"]);
    assert_eq!(dictionary.change_len(), 2);
}

#[test]
fn term_dictionary_validation_rejects_empty_terms() {
    let empty_term = TermDictionary::from_sorted_entries(vec![("".to_string(), posting(0))]);
    assert!(!empty_term.validates());
    let fine = TermDictionary::from_sorted_entries(vec![
        ("a".to_string(), posting(0)),
        ("ab".to_string(), posting(1)),
        ("b".to_string(), posting(2)),
    ]);
    assert!(fine.validates());
}

#[test]
fn term_order_compares_code_points_with_prefixes_first() {
    let dictionary = TermDictionary::from_sorted_entries(vec![
        ("Z".to_string(), posting(0)),
        ("a".to_string(), posting(1)),
        ("ab".to_string(), posting(2)),
        ("é".to_string(), posting(3)),
    ]);
    assert!(dictionary.validates());
    let mut changed = dictionary.clone();
    changed.insert("aa".to_string(), posting(4)).expect("insert must succeed");
    changed.insert("ä".to_string(), posting(5)).expect("insert must succeed");
    let terms: Vec<_> = changed.iter().into_iter().map(|(term, _)| term).collect();
    assert_eq!(terms, vec!["Z", "a", "aa", "ab", "ä", "é"]);
}
