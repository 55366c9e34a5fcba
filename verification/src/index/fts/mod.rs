//! Full-text index building blocks.

pub mod document_lengths;
pub mod expression;
pub mod overlay;
pub mod posting_list;
pub mod term_dictionary;
pub mod trigram;

use crate::error::{Error, ErrorCode, Result};
use crate::index::bitmap::{treemap_contains, treemap_members};
use crate::index::limits::{delta_compaction_limit, spec_compaction_limit};
use crate::text::{compare_text, lemma_text_order, text_less, TextOrder};
use document_lengths::DocumentLengths;
use posting_list::{in_key_order, PostingList};
use roaring::RoaringTreemap;
use std::sync::Arc;
use term_dictionary::{terms_ascending, TermDictionary};
use vstd::prelude::*;

verus! {

/// Expected visits below which full-text scoring keeps a sparse score map.
pub const DENSE_SCORE_MIN_VISITS: usize = 4096;

/// How many times wider than the expected visits a dense score array's
/// ordinal span may be.
pub const DENSE_SCORE_MAX_SPAN_FACTOR: usize = 8;

/// Whether full-text scoring uses a dense score array: at least
/// `DENSE_SCORE_MIN_VISITS` expected visits over an ordinal span no wider
/// than `DENSE_SCORE_MAX_SPAN_FACTOR` times the visits (saturating).
pub fn use_dense_score_scratch(estimated_visits: usize, ordinal_span: usize) -> (r: bool)
    ensures
        r == (estimated_visits >= DENSE_SCORE_MIN_VISITS && ordinal_span <= if estimated_visits
            * DENSE_SCORE_MAX_SPAN_FACTOR <= usize::MAX {
            estimated_visits * DENSE_SCORE_MAX_SPAN_FACTOR
        } else {
            usize::MAX as int
        }),
{
    let bound = match estimated_visits.checked_mul(DENSE_SCORE_MAX_SPAN_FACTOR) {
        Some(value) => value,
        None => usize::MAX,
    };
    estimated_visits >= DENSE_SCORE_MIN_VISITS && ordinal_span <= bound
}

/// The change count at which a full-text overlay folds into a new base of
/// `base_len` entries.
pub fn compaction_limit(base_len: usize) -> (r: usize)
    ensures
        r == spec_compaction_limit(base_len as int),
        64 <= r <= 2048,
{
    delta_compaction_limit(base_len)
}

/// `Arc::ptr_eq`: whether two handles point to the same allocation. Two
/// handles of one allocation see the same value; which allocation a handle
/// points to is not visible to the specifications, so nothing more is
/// stated.
#[verifier::external_body]
pub(crate) fn same_allocation<T>(a: &Arc<T>, b: &Arc<T>) -> (r: bool)
    ensures
        r ==> *a == *b,
{
    Arc::ptr_eq(a, b)
}

/// `Arc::clone`: another handle to the same allocation, so the same value.
#[verifier::external_body]
pub(crate) fn share<T>(a: &Arc<T>) -> (r: Arc<T>)
    ensures
        r == *a,
{
    Arc::clone(a)
}

/// A term's occurrence count in one document, with that document's token
/// length stored beside it.
#[derive(Debug, Clone, Copy, PartialEq, Eq, Structural)]
pub struct PostingEntry {
    pub frequency: u32,
    pub document_length: u32,
}

/// The characters of each token.
pub open spec fn token_views(tokens: Seq<String>) -> Seq<Seq<char>> {
    tokens.map_values(|t: String| t@)
}

/// How often `t` occurs in `tokens`.
pub open spec fn occurrences(tokens: Seq<Seq<char>>, t: Seq<char>) -> nat
    decreases tokens.len(),
{
    if tokens.len() == 0 {
        0
    } else {
        occurrences(tokens.drop_last(), t) + if tokens.last() == t {
            1nat
        } else {
            0nat
        }
    }
}

/// `table` lists each distinct token once, in text order, with the number of
/// times it occurs.
pub open spec fn frequency_table(table: Seq<(String, u32)>, tokens: Seq<Seq<char>>) -> bool {
    &&& terms_ascending(table)
    &&& forall|i: int|
        0 <= i < table.len() ==> (#[trigger] table[i]).1 == occurrences(tokens, table[i].0@)
            && occurrences(tokens, table[i].0@) > 0
    &&& forall|t: Seq<char>|
        occurrences(tokens, t) > 0 ==> exists|i: int| 0 <= i < table.len() && #[trigger] table[i].0@ == t
}

proof fn lemma_occurrences_bound(tokens: Seq<Seq<char>>, t: Seq<char>)
    ensures
        occurrences(tokens, t) <= tokens.len(),
    decreases tokens.len(),
{
    if tokens.len() > 0 {
        lemma_occurrences_bound(tokens.drop_last(), t);
    }
}

/// The first position whose term does not sort before `t`.
fn frequency_position(table: &Vec<(String, u32)>, t: &str) -> (r: usize)
    requires
        terms_ascending(table@),
    ensures
        r <= table@.len(),
        forall|j: int| 0 <= j < r ==> text_less(#[trigger] table@[j].0@, t@),
        forall|j: int| r <= j < table@.len() ==> !text_less(#[trigger] table@[j].0@, t@),
{
    let mut low: usize = 0;
    let mut high: usize = table.len();
    while low < high
        invariant
            low <= high <= table@.len(),
            terms_ascending(table@),
            forall|j: int| 0 <= j < low ==> text_less(#[trigger] table@[j].0@, t@),
            forall|j: int| high <= j < table@.len() ==> !text_less(#[trigger] table@[j].0@, t@),
        decreases high - low,
    {
        let middle = low + (high - low) / 2;
        if compare_text(table[middle].0.as_str(), t) == TextOrder::Less {
            proof {
                lemma_text_order();
                assert forall|j: int| 0 <= j < middle + 1 implies text_less(
                    #[trigger] table@[j].0@,
                    t@,
                ) by {
                    if j < middle {
                        assert(text_less(table@[j].0@, table@[middle as int].0@));
                    }
                }
            }
            low = middle + 1;
        } else {
            proof {
                lemma_text_order();
                assert forall|j: int| middle <= j < table@.len() implies !text_less(
                    #[trigger] table@[j].0@,
                    t@,
                ) by {
                    if j > middle {
                        assert(text_less(table@[middle as int].0@, table@[j].0@));
                    }
                }
            }
            high = middle;
        }
    }
    low
}

/// Counts each distinct token.
pub fn count_terms(tokens: &[String]) -> (r: Vec<(String, u32)>)
    requires
        tokens@.len() <= u32::MAX,
    ensures
        frequency_table(r@, token_views(tokens@)),
        r@.len() <= tokens@.len(),
{
    let ghost views = token_views(tokens@);
    let mut table: Vec<(String, u32)> = Vec::new();
    let mut i: usize = 0;
    proof {
        assert(views.subrange(0, 0) =~= Seq::<Seq<char>>::empty());
    }
    while i < tokens.len()
        invariant
            i <= tokens@.len(),
            tokens@.len() <= u32::MAX,
            views == token_views(tokens@),
            frequency_table(table@, views.subrange(0, i as int)),
            table@.len() <= i,
        decreases tokens@.len() - i,
    {
        let ghost before = table@;
        let ghost prefix = views.subrange(0, i as int);
        let ghost next = views.subrange(0, i + 1);
        let t = tokens[i].as_str();
        proof {
            assert(next.drop_last() =~= prefix);
            assert(next.last() == t@);
            assert forall|k: Seq<char>| #[trigger] occurrences(next, k) == occurrences(prefix, k) + if k
                == t@ {
                1nat
            } else {
                0nat
            } by {}
            lemma_occurrences_bound(prefix, t@);
            lemma_text_order();
        }
        let p = frequency_position(&table, t);
        if p < table.len() && compare_text(table[p].0.as_str(), t) == TextOrder::Equal {
            let count = table[p].1;
            let key = table[p].0.clone();
            table.set(p, (key, count + 1));
            proof {
                assert forall|a: int, b: int|
                    #![trigger table@[a], table@[b]]
                    0 <= a < b < table@.len() implies text_less(table@[a].0@, table@[b].0@) by {
                    assert(table@[a].0@ == before[a].0@);
                    assert(table@[b].0@ == before[b].0@);
                }
                assert forall|j: int| 0 <= j < table@.len() implies (#[trigger] table@[j]).1
                    == occurrences(next, table@[j].0@) && occurrences(next, table@[j].0@) > 0 by {
                    if j != p {
                        assert(table@[j] == before[j]);
                        assert(before[j].0@ != t@) by {
                            if j < p {
                                assert(text_less(before[j].0@, before[p as int].0@));
                            } else {
                                assert(text_less(before[p as int].0@, before[j].0@));
                            }
                        }
                    }
                }
                assert forall|k: Seq<char>| occurrences(next, k) > 0 implies exists|j: int|
                    0 <= j < table@.len() && #[trigger] table@[j].0@ == k by {
                    if k == t@ {
                        assert(table@[p as int].0@ == k);
                    } else {
                        let j = choose|j: int| 0 <= j < before.len() && #[trigger] before[j].0@ == k;
                        assert(table@[j].0@ == before[j].0@);
                    }
                }
            }
        } else {
            table.insert(p, (tokens[i].clone(), 1));
            proof {
                assert(occurrences(prefix, t@) == 0) by {
                    if occurrences(prefix, t@) > 0 {
                        let j = choose|j: int| 0 <= j < before.len() && #[trigger] before[j].0@ == t@;
                        if j < p {
                            assert(text_less(before[j].0@, t@));
                        } else {
                            assert(!text_less(before[j].0@, t@));
                            if j > p {
                                assert(text_less(before[p as int].0@, before[j].0@));
                            }
                        }
                    }
                }
                assert forall|a: int, b: int|
                    #![trigger table@[a], table@[b]]
                    0 <= a < b < table@.len() implies text_less(table@[a].0@, table@[b].0@) by {
                    if b < p {
                        assert(table@[a] == before[a]);
                        assert(table@[b] == before[b]);
                    } else if b == p {
                        assert(table@[a] == before[a]);
                    } else if a == p {
                        assert(table@[b] == before[b - 1]);
                        assert(!text_less(before[b - 1].0@, t@));
                        if b - 1 > p {
                            assert(text_less(before[p as int].0@, before[b - 1].0@));
                        }
                        assert(before[p as int].0@ != t@);
                    } else if a < p {
                        assert(table@[a] == before[a]);
                        assert(table@[b] == before[b - 1]);
                    } else {
                        assert(table@[a] == before[a - 1]);
                        assert(table@[b] == before[b - 1]);
                    }
                }
                assert forall|j: int| 0 <= j < table@.len() implies (#[trigger] table@[j]).1
                    == occurrences(next, table@[j].0@) && occurrences(next, table@[j].0@) > 0 by {
                    if j < p {
                        assert(table@[j] == before[j]);
                        assert(before[j].0@ != t@);
                    } else if j > p {
                        assert(table@[j] == before[j - 1]);
                        assert(before[j - 1].0@ != t@) by {
                            assert(!text_less(before[j - 1].0@, t@));
                            if j - 1 > p {
                                assert(text_less(before[p as int].0@, before[j - 1].0@));
                            }
                        }
                    }
                }
                assert forall|k: Seq<char>| occurrences(next, k) > 0 implies exists|j: int|
                    0 <= j < table@.len() && #[trigger] table@[j].0@ == k by {
                    if k == t@ {
                        assert(table@[p as int].0@ == k);
                    } else {
                        let j = choose|j: int| 0 <= j < before.len() && #[trigger] before[j].0@ == k;
                        if j < p {
                            assert(table@[j] == before[j]);
                        } else {
                            assert(table@[j + 1] == before[j]);
                        }
                    }
                }
            }
        }
        i = i + 1;
    }
    proof {
        assert(views.subrange(0, tokens@.len() as int) =~= views);
    }
    table
}

/// `t` is the term of one of the first `k` rows of `table`.
pub open spec fn listed_before(table: Seq<(String, u32)>, k: int, t: Seq<char>) -> bool {
    exists|j: int| 0 <= j < k && #[trigger] table[j].0@ == t
}

/// What a full-text index holds: each term's entries, each document's
/// token count, and the total token count.
pub struct FtsModel {
    pub postings: Map<Seq<char>, Map<u64, PostingEntry>>,
    pub lengths: Map<u64, u32>,
    pub total: int,
}

/// An index with no documents.
pub open spec fn empty_model() -> FtsModel {
    FtsModel { postings: Map::empty(), lengths: Map::empty(), total: 0 }
}

/// The entries for `t`, none when `t` is absent.
pub open spec fn entries_of(postings: Map<Seq<char>, Map<u64, PostingEntry>>, t: Seq<char>) -> Map<
    u64,
    PostingEntry,
> {
    if postings.contains_key(t) {
        postings[t]
    } else {
        Map::empty()
    }
}

/// The postings after indexing a document of `tokens` under `ordinal`: each
/// of its terms gains an entry with the term's count and the document's
/// length.
pub open spec fn inserted_postings(
    postings: Map<Seq<char>, Map<u64, PostingEntry>>,
    tokens: Seq<Seq<char>>,
    ordinal: u64,
) -> Map<Seq<char>, Map<u64, PostingEntry>> {
    Map::new(
        |t: Seq<char>| postings.contains_key(t) || occurrences(tokens, t) > 0,
        |t: Seq<char>|
            if occurrences(tokens, t) > 0 {
                entries_of(postings, t).insert(
                    ordinal,
                    PostingEntry {
                        frequency: occurrences(tokens, t) as u32,
                        document_length: tokens.len() as u32,
                    },
                )
            } else {
                postings[t]
            },
    )
}

/// The postings after dropping `ordinal` from the lists of `tokens`' terms;
/// a list left empty is dropped.
pub open spec fn removed_postings(
    postings: Map<Seq<char>, Map<u64, PostingEntry>>,
    tokens: Seq<Seq<char>>,
    ordinal: u64,
) -> Map<Seq<char>, Map<u64, PostingEntry>> {
    Map::new(
        |t: Seq<char>|
            postings.contains_key(t) && !(occurrences(tokens, t) > 0 && postings[t].remove(
                ordinal,
            ).dom().len() == 0),
        |t: Seq<char>|
            if occurrences(tokens, t) > 0 {
                postings[t].remove(ordinal)
            } else {
                postings[t]
            },
    )
}

/// The index after adding a document of `tokens` under `ordinal`.
pub open spec fn after_insert(m: FtsModel, tokens: Seq<Seq<char>>, ordinal: u64) -> FtsModel {
    FtsModel {
        postings: inserted_postings(m.postings, tokens, ordinal),
        lengths: m.lengths.insert(ordinal, tokens.len() as u32),
        total: m.total + tokens.len(),
    }
}

/// Whether a document of `length` tokens can be added under `ordinal`: its
/// length fits `u32`, the ordinal is new and can address a length slot, and
/// the counts do not overflow.
pub open spec fn insert_allowed(m: FtsModel, length: int, ordinal: u64) -> bool {
    &&& length <= u32::MAX
    &&& !m.lengths.contains_key(ordinal)
    &&& m.total + length <= u64::MAX
    &&& (ordinal as int) < usize::MAX
    &&& m.lengths.dom().len() < usize::MAX
}

/// Whether the term dictionary and the posting lists have room for a
/// document of `length` tokens (a bound no real index reaches).
pub open spec fn insert_roomy(m: FtsModel, length: int) -> bool {
    &&& m.postings.dom().len() + length <= usize::MAX
    &&& forall|t: Seq<char>|
        #[trigger] m.postings.contains_key(t) ==> m.postings[t].dom().len() < usize::MAX
}

/// The index after adding `docs` in order to an empty one.
pub open spec fn model_after(docs: Seq<(u64, Seq<Seq<char>>)>) -> FtsModel
    decreases docs.len(),
{
    if docs.len() == 0 {
        empty_model()
    } else {
        after_insert(model_after(docs.drop_last()), docs.last().1, docs.last().0)
    }
}

/// The ordinals and token views of documents.
pub open spec fn document_views(docs: Seq<(u64, Vec<String>)>) -> Seq<(u64, Seq<Seq<char>>)> {
    docs.map_values(|d: (u64, Vec<String>)| (d.0, token_views(d.1@)))
}

/// Every document of `docs` can be added after the ones before it.
pub open spec fn build_allowed(docs: Seq<(u64, Seq<Seq<char>>)>) -> bool
    decreases docs.len(),
{
    docs.len() == 0 || (build_allowed(docs.drop_last()) && insert_allowed(
        model_after(docs.drop_last()),
        docs.last().1.len() as int,
        docs.last().0,
    ))
}

/// The dictionary and the posting lists have room for every document in
/// turn (a bound no real index reaches).
pub open spec fn build_roomy(docs: Seq<(u64, Seq<Seq<char>>)>) -> bool
    decreases docs.len(),
{
    docs.len() == 0 || (build_roomy(docs.drop_last()) && insert_roomy(
        model_after(docs.drop_last()),
        docs.last().1.len() as int,
    ))
}

proof fn lemma_build_prefix(docs: Seq<(u64, Seq<Seq<char>>)>, k: int)
    requires
        0 <= k <= docs.len(),
    ensures
        build_allowed(docs) ==> build_allowed(docs.take(k)),
        build_roomy(docs) ==> build_roomy(docs.take(k)),
    decreases docs.len(),
{
    if k == docs.len() {
        assert(docs.take(k) =~= docs);
    } else {
        lemma_build_prefix(docs.drop_last(), k);
        assert(docs.drop_last().take(k) =~= docs.take(k));
    }
}

/// The index after dropping document `ordinal`, whose text had `tokens`.
pub open spec fn after_remove(m: FtsModel, tokens: Seq<Seq<char>>, ordinal: u64) -> FtsModel {
    FtsModel {
        postings: removed_postings(m.postings, tokens, ordinal),
        lengths: m.lengths.remove(ordinal),
        total: m.total - m.lengths[ordinal],
    }
}

/// Whether document `ordinal` can be dropped: it is indexed and its length
/// is within the total.
pub open spec fn remove_allowed(m: FtsModel, ordinal: u64) -> bool {
    m.lengths.contains_key(ordinal) && m.total >= m.lengths[ordinal]
}

/// A document change: its ordinal, its tokens before (if it had text) and
/// its tokens after (if it has text).
pub open spec fn change_views(changes: Seq<(u64, Option<Vec<String>>, Option<Vec<String>>)>) -> Seq<
    (u64, Option<Seq<Seq<char>>>, Option<Seq<Seq<char>>>),
> {
    changes.map_values(
        |c: (u64, Option<Vec<String>>, Option<Vec<String>>)|
            (
                c.0,
                match c.1 {
                    Some(v) => Some(token_views(v@)),
                    None => None,
                },
                match c.2 {
                    Some(v) => Some(token_views(v@)),
                    None => None,
                },
            ),
    )
}

/// The index after dropping a change's old text, if it had one.
pub open spec fn after_drop(m: FtsModel, c: (u64, Option<Seq<Seq<char>>>, Option<Seq<Seq<char>>>)) -> FtsModel {
    match c.1 {
        Some(tokens) => after_remove(m, tokens, c.0),
        None => m,
    }
}

/// The index after one change: nothing when the text did not change, else
/// the old text dropped and the new text added.
pub open spec fn after_change(m: FtsModel, c: (u64, Option<Seq<Seq<char>>>, Option<Seq<Seq<char>>>)) -> FtsModel {
    if c.1 == c.2 {
        m
    } else {
        match c.2 {
            Some(tokens) => after_insert(after_drop(m, c), tokens, c.0),
            None => after_drop(m, c),
        }
    }
}

/// Whether one change can be applied.
pub open spec fn change_allowed(m: FtsModel, c: (u64, Option<Seq<Seq<char>>>, Option<Seq<Seq<char>>>)) -> bool {
    c.1 == c.2 || ((c.1 is Some ==> remove_allowed(m, c.0)) && (c.2 matches Some(tokens)
        ==> insert_allowed(after_drop(m, c), tokens.len() as int, c.0)))
}

/// Whether the dictionary and the posting lists have room for one change
/// (a bound no real index reaches).
pub open spec fn change_roomy(m: FtsModel, c: (u64, Option<Seq<Seq<char>>>, Option<Seq<Seq<char>>>)) -> bool {
    c.1 == c.2 || (c.2 matches Some(tokens) ==> insert_roomy(after_drop(m, c), tokens.len() as int))
}

/// The index after `changes` in order.
pub open spec fn after_changes(
    m: FtsModel,
    changes: Seq<(u64, Option<Seq<Seq<char>>>, Option<Seq<Seq<char>>>)>,
) -> FtsModel
    decreases changes.len(),
{
    if changes.len() == 0 {
        m
    } else {
        after_change(after_changes(m, changes.drop_last()), changes.last())
    }
}

/// Whether every change can be applied after the ones before it.
pub open spec fn changes_allowed(
    m: FtsModel,
    changes: Seq<(u64, Option<Seq<Seq<char>>>, Option<Seq<Seq<char>>>)>,
) -> bool
    decreases changes.len(),
{
    changes.len() == 0 || (changes_allowed(m, changes.drop_last()) && change_allowed(
        after_changes(m, changes.drop_last()),
        changes.last(),
    ))
}

/// Whether every change has room after the ones before it.
pub open spec fn changes_roomy(
    m: FtsModel,
    changes: Seq<(u64, Option<Seq<Seq<char>>>, Option<Seq<Seq<char>>>)>,
) -> bool
    decreases changes.len(),
{
    changes.len() == 0 || (changes_roomy(m, changes.drop_last()) && change_roomy(
        after_changes(m, changes.drop_last()),
        changes.last(),
    ))
}

proof fn lemma_changes_prefix(
    m: FtsModel,
    changes: Seq<(u64, Option<Seq<Seq<char>>>, Option<Seq<Seq<char>>>)>,
    k: int,
)
    requires
        0 <= k <= changes.len(),
    ensures
        changes_allowed(m, changes) ==> changes_allowed(m, changes.take(k)),
        changes_roomy(m, changes) ==> changes_roomy(m, changes.take(k)),
    decreases changes.len(),
{
    if k == changes.len() {
        assert(changes.take(k) =~= changes);
    } else {
        lemma_changes_prefix(m, changes.drop_last(), k);
        assert(changes.drop_last().take(k) =~= changes.take(k));
    }
}

/// Whether two token lists are the same.
fn same_tokens(a: &Vec<String>, b: &Vec<String>) -> (r: bool)
    ensures
        r == (token_views(a@) == token_views(b@)),
{
    if a.len() != b.len() {
        proof {
            assert(token_views(a@).len() != token_views(b@).len());
        }
        return false;
    }
    let mut i: usize = 0;
    while i < a.len()
        invariant
            i <= a@.len(),
            a@.len() == b@.len(),
            forall|j: int| 0 <= j < i ==> a@[j]@ == #[trigger] b@[j]@,
        decreases a@.len() - i,
    {
        if a[i] != b[i] {
            proof {
                assert(token_views(a@)[i as int] != token_views(b@)[i as int]);
            }
            return false;
        }
        i = i + 1;
    }
    proof {
        assert(token_views(a@) =~= token_views(b@));
    }
    true
}

/// Whether two optional token lists are the same.
fn same_optional_tokens(a: &Option<Vec<String>>, b: &Option<Vec<String>>) -> (r: bool)
    ensures
        r == ((match *a {
            Some(v) => Some(token_views(v@)),
            None => None,
        }) == (match *b {
            Some(v) => Some(token_views(v@)),
            None => None,
        })),
{
    match (a, b) {
        (Some(x), Some(y)) => same_tokens(x, y),
        (None, None) => true,
        _ => false,
    }
}

/// A full-text index over documents given as token lists: the term
/// dictionary with each term's posting list, each document's token count,
/// and the total token count.
pub struct FtsIndex {
    postings: TermDictionary,
    document_lengths: DocumentLengths,
    total_tokens: u64,
}

impl FtsIndex {
    /// What the index holds.
    pub closed spec fn model(&self) -> FtsModel {
        FtsModel {
            postings: self.postings@.map_values(|p: Arc<PostingList>| p@),
            lengths: self.document_lengths@,
            total: self.total_tokens as int,
        }
    }

    /// The dictionary, the lengths and every posting list are well formed.
    pub closed spec fn well_formed(&self) -> bool {
        &&& self.postings.well_formed()
        &&& self.document_lengths.well_formed()
        &&& forall|t: Seq<char>| #[trigger]
            self.postings@.contains_key(t) ==> self.postings@[t].well_formed()
    }

    /// An index with no documents.
    pub fn new() -> (r: Self)
        ensures
            r.well_formed(),
            r.model() == empty_model(),
    {
        let lengths = DocumentLengths::from_sorted_entries(Vec::new());
        let index = FtsIndex {
            postings: TermDictionary::from_sorted_entries(Vec::new()),
            document_lengths: lengths.unwrap(),
            total_tokens: 0,
        };
        proof {
            assert(index.model().postings =~= Map::empty());
            assert(index.model().lengths =~= Map::empty());
        }
        index
    }

    /// The posting list of `term`.
    pub fn posting(&self, term: &str) -> (r: Option<Arc<PostingList>>)
        requires
            self.well_formed(),
        ensures
            r is Some == self.model().postings.contains_key(term@),
            r matches Some(list) ==> list@ == self.model().postings[term@] && list.well_formed(),
    {
        self.postings.get(term)
    }

    /// The token count of document `ordinal`.
    pub fn document_length(&self, ordinal: u64) -> (r: Option<u32>)
        ensures
            r == if self.model().lengths.contains_key(ordinal) {
                Some(self.model().lengths[ordinal])
            } else {
                None::<u32>
            },
    {
        self.document_lengths.get(ordinal)
    }

    /// The number of indexed documents.
    pub fn document_count(&self) -> (r: usize)
        requires
            self.well_formed(),
        ensures
            r == self.model().lengths.dom().len(),
    {
        self.document_lengths.len()
    }

    /// The total token count.
    pub fn total_tokens(&self) -> (r: u64)
        ensures
            r == self.model().total,
    {
        self.total_tokens
    }

    /// The term dictionary.
    pub closed spec fn spec_postings(&self) -> TermDictionary {
        self.postings
    }

    /// The document lengths.
    pub closed spec fn spec_document_lengths(&self) -> DocumentLengths {
        self.document_lengths
    }

    /// Folds pending changes of the lengths and of the dictionary into their
    /// bases, each once its changes reach the compaction limit of its base
    /// (leaving it as it was below the limit); what the index holds does not
    /// change.
    pub fn finish_changes(&mut self) -> (r: Result<()>)
        requires
            old(self).well_formed(),
        ensures
            r is Ok,
            final(self).well_formed(),
            final(self).model() == old(self).model(),
            old(self).spec_document_lengths().pending_changes().dom().len() < spec_compaction_limit(
                old(self).spec_document_lengths().base_slots().len() as int,
            ) ==> final(self).spec_document_lengths() == old(self).spec_document_lengths(),
            old(self).spec_document_lengths().pending_changes().dom().len() >= spec_compaction_limit(
                old(self).spec_document_lengths().base_slots().len() as int,
            ) ==> final(self).spec_document_lengths().pending_changes().dom().len() == 0
                && crate::index::ordinal_map::slot_map(final(self).spec_document_lengths().base_slots())
                == old(self).spec_document_lengths()@,
            old(self).spec_postings().pending_changes().dom().len() < spec_compaction_limit(
                old(self).spec_postings().base_entries().len() as int,
            ) ==> final(self).spec_postings() == old(self).spec_postings(),
            old(self).spec_postings().pending_changes().dom().len() >= spec_compaction_limit(
                old(self).spec_postings().base_entries().len() as int,
            ) ==> final(self).spec_postings().pending_changes().dom().len() == 0
                && term_dictionary::in_term_order(final(self).spec_postings().base_entries(), old(self).spec_postings()@),
    {
        let ghost before = self.postings@;
        self.document_lengths.finish_changes()?;
        self.postings.finish_changes();
        Ok(())
    }

    /// Indexes a document of `tokens` under `ordinal`.
    pub fn insert_text(&mut self, tokens: &[String], ordinal: u64) -> (r: Result<()>)
        requires
            old(self).well_formed(),
        ensures
            final(self).well_formed(),
            r is Ok ==> final(self).model() == after_insert(
                old(self).model(),
                token_views(tokens@),
                ordinal,
            ) && insert_allowed(old(self).model(), tokens@.len() as int, ordinal),
            insert_allowed(old(self).model(), tokens@.len() as int, ordinal) && insert_roomy(
                old(self).model(),
                tokens@.len() as int,
            ) ==> r is Ok,
            tokens@.len() > u32::MAX ==> (r matches Err(e) && e.code
                == ErrorCode::ResourceExhausted) && *final(self) == *old(self),
            tokens@.len() <= u32::MAX && old(self).model().lengths.contains_key(ordinal) ==> (
            r matches Err(e) && e.code == ErrorCode::Internal) && *final(self) == *old(self),
            tokens@.len() <= u32::MAX && !old(self).model().lengths.contains_key(ordinal) && old(
                self,
            ).model().total + tokens@.len() > u64::MAX ==> (r matches Err(e) && e.code
                == ErrorCode::ResourceExhausted) && *final(self) == *old(self),
            tokens@.len() <= u32::MAX && !old(self).model().lengths.contains_key(ordinal) && old(
                self,
            ).model().total + tokens@.len() <= u64::MAX && ((ordinal as int) >= usize::MAX || old(
                self,
            ).model().lengths.dom().len() == usize::MAX) ==> (r matches Err(e) && e.code
                == ErrorCode::ResourceExhausted),
    {
        if tokens.len() as u128 > u32::MAX as u128 {
            return Err(Error::resource_exhausted("FTS document has too many tokens"));
        }
        let length = tokens.len() as u32;
        if self.document_lengths.contains_key(ordinal) {
            return Err(Error::internal("FTS document ordinal is already indexed"));
        }
        let total = match self.total_tokens.checked_add(length as u64) {
            Some(total) => total,
            None => {
                return Err(Error::resource_exhausted("FTS token count overflow"));
            },
        };
        let ghost start = self.model();
        proof {
            self.document_lengths.lemma_finite();
            self.postings.lemma_finite();
        }
        self.total_tokens = total;
        match self.document_lengths.insert(ordinal, length) {
            Ok(()) => {},
            Err(error) => {
                return Err(error);
            },
        }
        let table = count_terms(tokens);
        let ghost views = token_views(tokens@);
        let ghost pv0 = start.postings;
        let ghost roomy = insert_roomy(start, tokens@.len() as int);
        let ghost lengths_now = self.document_lengths@;
        proof {
            self.postings.lemma_finite();
            assert(lengths_now == start.lengths.insert(ordinal, length));
            assert(self.postings@.dom() =~= pv0.dom());
            assert(self.model().postings =~= Map::new(
                |t: Seq<char>| pv0.contains_key(t) || listed_before(table@, 0, t),
                |t: Seq<char>|
                    if listed_before(table@, 0, t) {
                        entries_of(pv0, t).insert(
                            ordinal,
                            PostingEntry {
                                frequency: occurrences(views, t) as u32,
                                document_length: length,
                            },
                        )
                    } else {
                        pv0[t]
                    },
            ));
        }
        let mut k: usize = 0;
        while k < table.len()
            invariant
                k <= table@.len(),
                self.well_formed(),
                self.document_lengths@ == lengths_now,
                self.total_tokens == total,
                length == tokens@.len(),
                views == token_views(tokens@),
                frequency_table(table@, views),
                table@.len() <= tokens@.len(),
                roomy == insert_roomy(start, tokens@.len() as int),
                pv0 == start.postings,
                start == old(self).model(),
                insert_allowed(start, tokens@.len() as int, ordinal),
                pv0.dom().finite(),
                lengths_now == start.lengths.insert(ordinal, length),
                self.postings@.dom().len() <= pv0.dom().len() + k,
                self.model().postings == Map::new(
                    |t: Seq<char>|
                        pv0.contains_key(t) || listed_before(table@, k as int, t),
                    |t: Seq<char>|
                        if listed_before(table@, k as int, t) {
                            entries_of(pv0, t).insert(
                                ordinal,
                                PostingEntry {
                                    frequency: occurrences(views, t) as u32,
                                    document_length: length,
                                },
                            )
                        } else {
                            pv0[t]
                        },
                ),
            decreases table@.len() - k,
        {
            let ghost before = self.model().postings;
            let ghost dict_before = self.postings@;
            proof {
                self.postings.lemma_finite();
            }
            let ghost term_view = table@[k as int].0@;
            let frequency = table[k].1;
            let entry = PostingEntry { frequency, document_length: length };
            proof {
                assert(table@[k as int].1 == occurrences(views, term_view));
                lemma_occurrences_bound(views, term_view);
                assert(!listed_before(table@, k as int, term_view)) by {
                    lemma_text_order();
                    if listed_before(table@, k as int, term_view) {
                        let j = choose|j: int| 0 <= j < k && #[trigger] table@[j].0@ == term_view;
                        assert(text_less(table@[j].0@, table@[k as int].0@));
                    }
                }
            }
            let list = match self.postings.get(table[k].0.as_str()) {
                Some(posting) => {
                    proof {
                        assert(self.postings@.contains_key(term_view));
                        assert(before.contains_key(term_view));
                        assert(before[term_view] == posting@);
                        assert(!listed_before(table@, k as int, term_view));
                        assert(pv0.contains_key(term_view));
                        assert(before[term_view] == pv0[term_view]);
                    }
                    let mut list = (*posting).clone();
                    proof {
                        list.lemma_finite();
                    }
                    match list.insert(ordinal, entry) {
                        Ok(()) => {},
                        Err(error) => {
                            proof {
                                assert(!roomy);
                            }
                            return Err(error);
                        },
                    }
                    list
                },
                None => {
                    proof {
                        assert(!self.postings@.contains_key(term_view));
                        assert(!before.contains_key(term_view));
                        assert(!pv0.contains_key(term_view));
                        assert(entries_of(pv0, term_view) =~= Map::<u64, PostingEntry>::empty());
                    }
                    PostingList::single(ordinal, entry)
                },
            };
            proof {
                assert(list@ == entries_of(pv0, term_view).insert(ordinal, entry));
            }
            let shared = Arc::new(list);
            let ghost kept = shared;
            match self.postings.insert(table[k].0.clone(), shared) {
                Ok(()) => {},
                Err(error) => {
                    proof {
                        assert(!roomy);
                    }
                    return Err(error);
                },
            }
            proof {
                assert(self.postings@ == dict_before.insert(term_view, kept));
                assert(self.model().postings =~= before.insert(term_view, kept@));
                assert(entry == PostingEntry {
                    frequency: occurrences(views, term_view) as u32,
                    document_length: length,
                });
            }
            proof {
                assert forall|t: Seq<char>| #[trigger]
                    self.postings@.contains_key(t) implies self.postings@[t].well_formed() by {
                    if t != term_view {
                        assert(dict_before.contains_key(t));
                    }
                }
                assert(self.model().postings =~= Map::new(
                    |t: Seq<char>|
                        pv0.contains_key(t) || listed_before(table@, k + 1, t),
                    |t: Seq<char>|
                        if listed_before(table@, k + 1, t) {
                            entries_of(pv0, t).insert(
                                ordinal,
                                PostingEntry {
                                    frequency: occurrences(views, t) as u32,
                                    document_length: length,
                                },
                            )
                        } else {
                            pv0[t]
                        },
                )) by {
                    assert forall|t: Seq<char>|
                        #[trigger] listed_before(table@, k + 1, t) == (listed_before(
                            table@,
                            k as int,
                            t,
                        ) || t == term_view) by {
                        if t == term_view {
                            assert(table@[k as int].0@ == t);
                        }
                        if listed_before(table@, k + 1, t) {
                            let j = choose|j: int| 0 <= j < k + 1 && #[trigger] table@[j].0@ == t;
                            if j < k {
                                assert(table@[j].0@ == t);
                            }
                        }
                        if listed_before(table@, k as int, t) {
                            let j = choose|j: int| 0 <= j < k && #[trigger] table@[j].0@ == t;
                            assert(table@[j].0@ == t);
                        }
                    }
                }
            }
            k = k + 1;
        }
        proof {
            assert(self.model().postings =~= inserted_postings(pv0, views, ordinal)) by {
                assert forall|t: Seq<char>|
                    #[trigger] listed_before(table@, table@.len() as int, t) == (occurrences(
                        views,
                        t,
                    ) > 0) by {
                    if listed_before(table@, table@.len() as int, t) {
                        let j = choose|j: int| 0 <= j < table@.len() && #[trigger] table@[j].0@ == t;
                        assert(table@[j].0@ == t);
                    }
                }
            }
        }
        Ok(())
    }

    /// Drops document `ordinal`, whose text had `tokens`, from the lengths
    /// and from the posting list of each of its terms; a list left empty
    /// drops its term.
    pub fn remove_text(&mut self, tokens: &[String], ordinal: u64) -> (r: Result<()>)
        requires
            old(self).well_formed(),
        ensures
            final(self).well_formed(),
            !old(self).model().lengths.contains_key(ordinal) ==> (r matches Err(e) && e.code
                == ErrorCode::Internal) && final(self).model() == old(self).model(),
            old(self).model().lengths.contains_key(ordinal) && old(self).model().total < old(
                self,
            ).model().lengths[ordinal] ==> (r matches Err(e) && e.code == ErrorCode::Internal)
                && final(self).model() == (FtsModel {
                lengths: old(self).model().lengths.remove(ordinal),
                ..old(self).model()
            }),
            old(self).model().lengths.contains_key(ordinal) && old(self).model().total >= old(
                self,
            ).model().lengths[ordinal] ==> r is Ok && final(self).model() == (FtsModel {
                postings: removed_postings(old(self).model().postings, token_views(tokens@), ordinal),
                lengths: old(self).model().lengths.remove(ordinal),
                total: old(self).model().total - old(self).model().lengths[ordinal],
            }),
    {
        let length = match self.document_lengths.remove(ordinal) {
            Some(length) => length,
            None => {
                proof {
                    assert(self.document_lengths@ =~= old(self).document_lengths@);
                }
                return Err(Error::internal("FTS document ordinal is not indexed"));
            },
        };
        self.total_tokens = match self.total_tokens.checked_sub(length as u64) {
            Some(total) => total,
            None => {
                return Err(Error::internal("FTS token count underflow"));
            },
        };
        let ghost views = token_views(tokens@);
        let ghost pv0 = old(self).model().postings;
        let ghost lengths_now = self.document_lengths@;
        let ghost total_now = self.total_tokens;
        let mut i: usize = 0;
        proof {
            assert(views.subrange(0, 0) =~= Seq::<Seq<char>>::empty());
            assert(removed_postings(pv0, views.subrange(0, 0), ordinal) =~= pv0);
        }
        while i < tokens.len()
            invariant
                i <= tokens@.len(),
                self.well_formed(),
                self.document_lengths@ == lengths_now,
                self.total_tokens == total_now,
                views == token_views(tokens@),
                self.model().postings == removed_postings(pv0, views.subrange(0, i as int), ordinal),
            decreases tokens@.len() - i,
        {
            let ghost prefix = views.subrange(0, i as int);
            let ghost next = views.subrange(0, i + 1);
            let ghost t = tokens@[i as int]@;
            let ghost current = self.model().postings;
            let ghost dict_before = self.postings@;
            let ghost target = removed_postings(pv0, next, ordinal);
            proof {
                assert(next.drop_last() =~= prefix);
                assert(next.last() == t);
                assert(views[i as int] == t);
                assert forall|u: Seq<char>| u != t implies #[trigger] occurrences(next, u)
                    == occurrences(prefix, u) by {}
                assert(occurrences(next, t) > 0);
                assert forall|u: Seq<char>| u != t implies (#[trigger] target.contains_key(u)
                    == current.contains_key(u) && (target.contains_key(u) ==> target[u] == current[u]))
                    by {}
            }
            let term = tokens[i].as_str();
            match self.postings.get(term) {
                Some(posting) => {
                    let mut list = (*posting).clone();
                    list.remove(ordinal);
                    proof {
                        assert(current.contains_key(t));
                        assert(current[t] == posting@);
                        assert(list@ =~= pv0[t].remove(ordinal));
                    }
                    if list.is_empty() {
                        self.postings.remove(term);
                        proof {
                            assert(!target.contains_key(t));
                            assert(self.postings@ == dict_before.remove(t));
                            assert forall|u: Seq<char>| #[trigger]
                                self.model().postings.contains_key(u) == target.contains_key(u) by {
                                if u != t {
                                    assert(dict_before.contains_key(u) == current.contains_key(u));
                                }
                            }
                            assert forall|u: Seq<char>| #[trigger]
                                self.model().postings.contains_key(u) implies self.model().postings[u]
                                == target[u] by {
                                assert(self.postings@[u] == dict_before[u]);
                            }
                            assert(self.model().postings =~= target);
                        }
                    } else {
                        let shared = Arc::new(list);
                        let ghost kept = shared;
                        let inserted = self.postings.insert(tokens[i].clone(), shared);
                        proof {
                            assert(inserted is Ok);
                            assert(target.contains_key(t));
                            assert(target[t] == kept@);
                            assert(self.postings@ == dict_before.insert(t, kept));
                            assert forall|u: Seq<char>| #[trigger]
                                self.model().postings.contains_key(u) == target.contains_key(u) by {
                                if u != t {
                                    assert(dict_before.contains_key(u) == current.contains_key(u));
                                }
                            }
                            assert forall|u: Seq<char>| #[trigger]
                                self.model().postings.contains_key(u) implies self.model().postings[u]
                                == target[u] by {
                                if u != t {
                                    assert(self.postings@[u] == dict_before[u]);
                                }
                            }
                            assert(self.model().postings =~= target);
                        }
                    }
                },
                None => {
                    proof {
                        assert(!current.contains_key(t));
                        assert(!target.contains_key(t));
                        assert(self.model().postings =~= target);
                    }
                },
            }
            proof {
                assert forall|u: Seq<char>| #[trigger]
                    self.postings@.contains_key(u) implies self.postings@[u].well_formed() by {
                    if u != t {
                        assert(dict_before.contains_key(u));
                    }
                }
            }
            i = i + 1;
        }
        proof {
            assert(views.subrange(0, tokens@.len() as int) =~= views);
        }
        Ok(())
    }

    /// A copy sharing the dictionary and length bases.
    pub fn share_copy(&self) -> (r: Self)
        ensures
            r.model() == self.model(),
            r.well_formed() == self.well_formed(),
    {
        FtsIndex {
            postings: self.postings.clone(),
            document_lengths: self.document_lengths.clone(),
            total_tokens: self.total_tokens,
        }
    }

    /// The next generation after `changes`: for each changed document whose
    /// tokens differ, its old text is dropped and its new text added; then
    /// pending changes are folded.
    pub fn apply_document_changes(
        &self,
        changes: &[(u64, Option<Vec<String>>, Option<Vec<String>>)],
    ) -> (r: Result<Self>)
        requires
            self.well_formed(),
        ensures
            r matches Ok(next) ==> next.well_formed() && next.model() == after_changes(
                self.model(),
                change_views(changes@),
            ),
            changes_allowed(self.model(), change_views(changes@)) && changes_roomy(
                self.model(),
                change_views(changes@),
            ) ==> r is Ok,
            !changes_allowed(self.model(), change_views(changes@)) ==> r is Err,
    {
        let ghost views = change_views(changes@);
        let ghost start = self.model();
        let mut next = self.share_copy();
        let mut i: usize = 0;
        proof {
            assert(views.take(0) =~= Seq::<(u64, Option<Seq<Seq<char>>>, Option<Seq<Seq<char>>>)>::empty());
        }
        while i < changes.len()
            invariant
                i <= changes@.len(),
                views == change_views(changes@),
                start == self.model(),
                next.well_formed(),
                next.model() == after_changes(start, views.take(i as int)),
                changes_allowed(start, views.take(i as int)),
            decreases changes@.len() - i,
        {
            let ghost before = next.model();
            let ghost c = views[i as int];
            proof {
                assert(views.take(i + 1).drop_last() =~= views.take(i as int));
                assert(views.take(i + 1).last() == c);
                lemma_changes_prefix(start, views, i + 1);
            }
            let (ordinal, previous, current) = (&changes[i].0, &changes[i].1, &changes[i].2);
            if !same_optional_tokens(previous, current) {
                if let Some(tokens) = previous {
                    match next.remove_text(tokens.as_slice(), *ordinal) {
                        Ok(()) => {},
                        Err(error) => {
                            return Err(error);
                        },
                    }
                }
                proof {
                    assert(next.model() == after_drop(before, c));
                }
                if let Some(tokens) = current {
                    match next.insert_text(tokens.as_slice(), *ordinal) {
                        Ok(()) => {},
                        Err(error) => {
                            return Err(error);
                        },
                    }
                }
            }
            proof {
                assert(next.model() == after_change(before, c));
                assert(change_allowed(before, c));
            }
            i = i + 1;
        }
        next.finish_changes()?;
        proof {
            assert(views.take(changes@.len() as int) =~= views);
        }
        Ok(next)
    }

    /// An index of `docs`, added in order; each document is its ordinal and
    /// its tokens.
    pub fn build(docs: &[(u64, Vec<String>)]) -> (r: Result<Self>)
        ensures
            r matches Ok(index) ==> index.well_formed() && index.model() == model_after(
                document_views(docs@),
            ),
            build_allowed(document_views(docs@)) && build_roomy(document_views(docs@)) ==> r is Ok,
            !build_allowed(document_views(docs@)) ==> r is Err,
    {
        let ghost views = document_views(docs@);
        let mut index = FtsIndex::new();
        let mut i: usize = 0;
        proof {
            assert(views.take(0) =~= Seq::<(u64, Seq<Seq<char>>)>::empty());
        }
        while i < docs.len()
            invariant
                i <= docs@.len(),
                views == document_views(docs@),
                index.well_formed(),
                index.model() == model_after(views.take(i as int)),
                build_allowed(views.take(i as int)),
            decreases docs@.len() - i,
        {
            proof {
                assert(views.take(i + 1).drop_last() =~= views.take(i as int));
                assert(views.take(i + 1).last() == views[i as int]);
                assert(views[i as int] == (docs@[i as int].0, token_views(docs@[i as int].1@)));
            }
            let result = index.insert_text(docs[i].1.as_slice(), docs[i].0);
            match result {
                Ok(()) => {},
                Err(error) => {
                    proof {
                        lemma_build_prefix(views, i + 1);
                    }
                    return Err(error);
                },
            }
            i = i + 1;
        }
        index.finish_changes()?;
        proof {
            assert(views.take(docs@.len() as int) =~= views);
        }
        Ok(index)
    }
}

/// Removing a document that was just added gives back the postings from
/// before, when no list held its ordinal and no list was empty.
pub proof fn law_remove_text_undoes_insert_text(
    postings: Map<Seq<char>, Map<u64, PostingEntry>>,
    tokens: Seq<Seq<char>>,
    ordinal: u64,
)
    requires
        forall|t: Seq<char>| #[trigger]
            postings.contains_key(t) ==> !postings[t].contains_key(ordinal)
                && postings[t].dom().finite() && postings[t].dom().len() > 0,
    ensures
        removed_postings(inserted_postings(postings, tokens, ordinal), tokens, ordinal)
            == postings,
{
    let inserted = inserted_postings(postings, tokens, ordinal);
    let removed = removed_postings(inserted, tokens, ordinal);
    assert forall|t: Seq<char>| occurrences(tokens, t) > 0 implies #[trigger] inserted[t].remove(
        ordinal,
    ) =~= entries_of(postings, t) by {}
    assert forall|t: Seq<char>| #[trigger] removed.contains_key(t) == postings.contains_key(t) by {
        if occurrences(tokens, t) > 0 && !postings.contains_key(t) {
            assert(inserted[t].remove(ordinal) =~= Map::<u64, PostingEntry>::empty());
        }
    }
    assert(removed =~= postings);
}

/// Adding a document and then removing it gives back the index from before,
/// when the index was consistent: no list held the new ordinal and no list
/// was empty.
pub proof fn law_remove_undoes_insert_model(m: FtsModel, tokens: Seq<Seq<char>>, ordinal: u64)
    requires
        insert_allowed(m, tokens.len() as int, ordinal),
        forall|t: Seq<char>| #[trigger]
            m.postings.contains_key(t) ==> !m.postings[t].contains_key(ordinal)
                && m.postings[t].dom().finite() && m.postings[t].dom().len() > 0,
    ensures
        ({
            let added = after_insert(m, tokens, ordinal);
            (FtsModel {
                postings: removed_postings(added.postings, tokens, ordinal),
                lengths: added.lengths.remove(ordinal),
                total: added.total - added.lengths[ordinal],
            }) == m
        }),
{
    law_remove_text_undoes_insert_text(m.postings, tokens, ordinal);
    assert(m.lengths.insert(ordinal, tokens.len() as u32).remove(ordinal) =~= m.lengths);
}

/// Whether document `ordinal` holds every one of `terms` (of which there is
/// at least one) and, when a candidate set is given, belongs to it.
pub open spec fn holds_all_terms(
    postings: Map<Seq<char>, Map<u64, PostingEntry>>,
    terms: Seq<String>,
    allowed: Option<Set<u64>>,
    ordinal: u64,
) -> bool {
    &&& terms.len() > 0
    &&& forall|j: int| #![trigger terms[j]]
        0 <= j < terms.len() ==> postings.contains_key(terms[j]@)
            && postings[terms[j]@].contains_key(ordinal)
    &&& match allowed {
        Some(set) => set.contains(ordinal),
        None => true,
    }
}

/// The candidate set as a set of ordinals.
pub open spec fn allowed_members(allowed: Option<&RoaringTreemap>) -> Option<Set<u64>> {
    match allowed {
        Some(bitmap) => Some(treemap_members(*bitmap)),
        None => None,
    }
}

/// The entry of `ordinal` in each of `lists`, when every list holds one.
fn entries_at(lists: &Vec<Arc<PostingList>>, ordinal: u64) -> (r: Option<Vec<PostingEntry>>)
    requires
        forall|j: int| 0 <= j < lists@.len() ==> (#[trigger] lists@[j]).well_formed(),
    ensures
        r is Some <==> forall|j: int| 0 <= j < lists@.len() ==> (#[trigger] lists@[j])@.contains_key(ordinal),
        r matches Some(v) ==> v@.len() == lists@.len() && forall|j: int|
            0 <= j < lists@.len() ==> v@[j] == (#[trigger] lists@[j])@[ordinal],
{
    let mut found: Vec<PostingEntry> = Vec::new();
    let mut j: usize = 0;
    while j < lists.len()
        invariant
            j <= lists@.len(),
            found@.len() == j,
            forall|m: int| 0 <= m < lists@.len() ==> (#[trigger] lists@[m]).well_formed(),
            forall|m: int|
                0 <= m < j ==> (#[trigger] lists@[m])@.contains_key(ordinal) && found@[m] == lists@[m]@[ordinal],
        decreases lists@.len() - j,
    {
        match lists[j].get(ordinal) {
            Some(entry) => {
                found.push(entry);
            },
            None => {
                return None;
            },
        }
        j = j + 1;
    }
    Some(found)
}

impl FtsIndex {
    /// The documents that hold every one of `terms` and belong to `allowed`
    /// when it is given, in increasing ordinal order, each with its posting
    /// entry for each term in the order of `terms`. The walk follows the
    /// shortest posting list among the terms.
    pub fn conjunctive_candidates(&self, terms: &[String], allowed: Option<&RoaringTreemap>) -> (r: Vec<
        (u64, Vec<PostingEntry>),
    >)
        requires
            self.well_formed(),
        ensures
            forall|i: int, k: int| 0 <= i < k < r@.len() ==> r@[i].0 < r@[k].0,
            forall|i: int|
                0 <= i < r@.len() ==> holds_all_terms(
                    self.model().postings,
                    terms@,
                    allowed_members(allowed),
                    #[trigger] r@[i].0,
                ),
            forall|o: u64|
                holds_all_terms(self.model().postings, terms@, allowed_members(allowed), o) ==> exists|
                    i: int,
                | 0 <= i < r@.len() && #[trigger] r@[i].0 == o,
            forall|i: int, j: int|
                0 <= i < r@.len() && 0 <= j < terms@.len() ==> (#[trigger] r@[i].1@).len() == terms@.len()
                    && r@[i].1@[j] == self.model().postings[#[trigger] terms@[j]@][r@[i].0],
    {
        let ghost postings = self.model().postings;
        let ghost want = allowed_members(allowed);
        let mut lists: Vec<Arc<PostingList>> = Vec::new();
        let mut driver: usize = 0;
        let mut t: usize = 0;
        while t < terms.len()
            invariant
                lists@.len() == t,
                t <= terms@.len(),
                self.well_formed(),
                postings == self.model().postings,
                driver <= t,
                driver < t || t == 0,
                forall|j: int| 0 <= j < t ==> (#[trigger] lists@[j]).well_formed(),
                forall|j: int| #![trigger lists@[j]] #![trigger terms@[j]]
                    0 <= j < t ==> postings.contains_key(terms@[j]@) && lists@[j]@ == postings[terms@[j]@],
            decreases terms@.len() - t,
        {
            match self.posting(terms[t].as_str()) {
                Some(list) => {
                    if t > 0 && list.len() < lists[driver].len() {
                        driver = t;
                    }
                    lists.push(list);
                },
                None => {
                    proof {
                        assert forall|o: u64| !holds_all_terms(postings, terms@, want, o) by {
                            assert(!postings.contains_key(terms@[t as int]@));
                        }
                    }
                    return Vec::new();
                },
            }
            t = t + 1;
        }
        if terms.len() == 0 {
            return Vec::new();
        }
        let entries = lists[driver].iter();
        let ghost driven = lists@[driver as int]@;
        let mut out: Vec<(u64, Vec<PostingEntry>)> = Vec::new();
        let mut e: usize = 0;
        while e < entries.len()
            invariant
                e <= entries@.len(),
                driver < terms@.len(),
                lists@.len() == terms@.len(),
                in_key_order(entries@, driven),
                driven == postings[terms@[driver as int]@],
                want == allowed_members(allowed),
                postings == self.model().postings,
                forall|j: int| 0 <= j < lists@.len() ==> (#[trigger] lists@[j]).well_formed(),
                forall|j: int| #![trigger lists@[j]] #![trigger terms@[j]]
                    0 <= j < terms@.len() ==> postings.contains_key(terms@[j]@) && lists@[j]@ == postings[terms@[j]@],
                forall|i: int, k: int| 0 <= i < k < out@.len() ==> out@[i].0 < out@[k].0,
                forall|i: int| #![trigger out@[i]] 0 <= i < out@.len() ==> holds_all_terms(postings, terms@, want, out@[i].0),
                forall|q: int|
                    0 <= q < e && holds_all_terms(postings, terms@, want, #[trigger] entries@[q].0) ==> exists|i: int|
                        0 <= i < out@.len() && #[trigger] out@[i].0 == entries@[q].0,
                forall|i: int, j: int|
                    0 <= i < out@.len() && 0 <= j < terms@.len() ==> (#[trigger] out@[i].1@).len() == terms@.len()
                        && out@[i].1@[j] == postings[#[trigger] terms@[j]@][out@[i].0],
                out@.len() > 0 ==> exists|q: int| 0 <= q < e && out@[out@.len() - 1].0 == #[trigger] entries@[q].0,
            decreases entries@.len() - e,
        {
            let ordinal = entries[e].0;
            let admitted = match allowed {
                Some(bitmap) => treemap_contains(bitmap, ordinal),
                None => true,
            };
            let ghost before = out@;
            if admitted {
                match entries_at(&lists, ordinal) {
                    Some(found) => {
                        proof {
                            self.lemma_holds_from_lists(&lists, terms@, want, ordinal);
                            lemma_push_keeps_order(before, entries@, e as int, ordinal);
                        }
                        out.push((ordinal, found));
                        proof {
                            lemma_push_keeps_cover(before, out@, entries@, e as int, postings, terms@, want);
                        }
                    },
                    None => {
                        proof {
                            let j = choose|j: int| 0 <= j < lists@.len() && !(#[trigger] lists@[j])@.contains_key(ordinal);
                            assert(lists@[j]@ == postings[terms@[j]@]);
                            assert(!holds_all_terms(postings, terms@, want, ordinal));
                        }
                    },
                }
            } else {
                proof {
                    assert(!holds_all_terms(postings, terms@, want, ordinal));
                }
            }
            e = e + 1;
        }
        proof {
            assert forall|o: u64| holds_all_terms(postings, terms@, want, o) implies exists|i: int|
                0 <= i < out@.len() && #[trigger] out@[i].0 == o by {
                assert(postings[terms@[driver as int]@].contains_key(o));
                let q = choose|q: int| 0 <= q < entries@.len() && #[trigger] entries@[q].0 == o;
                assert(holds_all_terms(postings, terms@, want, entries@[q].0));
            }
        }
        out
    }

    proof fn lemma_holds_from_lists(
        &self,
        lists: &Vec<Arc<PostingList>>,
        terms: Seq<String>,
        want: Option<Set<u64>>,
        ordinal: u64,
    )
        requires
            terms.len() > 0,
            lists@.len() == terms.len(),
            forall|j: int| #![trigger lists@[j]] #![trigger terms[j]]
                0 <= j < terms.len() ==> self.model().postings.contains_key(terms[j]@) && lists@[j]@
                    == self.model().postings[terms[j]@],
            forall|j: int| 0 <= j < lists@.len() ==> (#[trigger] lists@[j])@.contains_key(ordinal),
            match want {
                Some(set) => set.contains(ordinal),
                None => true,
            },
        ensures
            holds_all_terms(self.model().postings, terms, want, ordinal),
    {
        assert forall|j: int| #![trigger terms[j]] 0 <= j < terms.len() implies self.model().postings.contains_key(terms[j]@)
            && self.model().postings[terms[j]@].contains_key(ordinal) by {
            assert(lists@[j]@.contains_key(ordinal));
        }
    }
}

/// Appending an ordinal later in a sorted walk than every ordinal taken so
/// far keeps the taken ordinals increasing.
proof fn lemma_push_keeps_order<E>(before: Seq<(u64, E)>, entries: Seq<(u64, PostingEntry)>, e: int, ordinal: u64)
    requires
        0 <= e < entries.len(),
        entries[e].0 == ordinal,
        forall|i: int, k: int| 0 <= i < k < entries.len() ==> entries[i].0 < entries[k].0,
        forall|i: int, k: int| 0 <= i < k < before.len() ==> before[i].0 < before[k].0,
        before.len() > 0 ==> exists|q: int| 0 <= q < e && before[before.len() - 1].0 == #[trigger] entries[q].0,
    ensures
        forall|i: int| 0 <= i < before.len() ==> before[i].0 < ordinal,
{
    if before.len() > 0 {
        let q = choose|q: int| 0 <= q < e && before[before.len() - 1].0 == #[trigger] entries[q].0;
        assert(entries[q].0 < entries[e].0);
        assert forall|i: int| 0 <= i < before.len() implies before[i].0 < ordinal by {
            if i < before.len() - 1 {
                assert(before[i].0 < before[before.len() - 1].0);
            }
        }
    }
}

/// After appending the entry for `entries[e]`, every walked ordinal that
/// holds all terms is still taken.
proof fn lemma_push_keeps_cover(
    before: Seq<(u64, Vec<PostingEntry>)>,
    after: Seq<(u64, Vec<PostingEntry>)>,
    entries: Seq<(u64, PostingEntry)>,
    e: int,
    postings: Map<Seq<char>, Map<u64, PostingEntry>>,
    terms: Seq<String>,
    want: Option<Set<u64>>,
)
    requires
        0 <= e < entries.len(),
        after.len() == before.len() + 1,
        forall|i: int| 0 <= i < before.len() ==> after[i] == before[i],
        after[before.len() as int].0 == entries[e].0,
        forall|q: int|
            0 <= q < e && holds_all_terms(postings, terms, want, #[trigger] entries[q].0) ==> exists|i: int|
                0 <= i < before.len() && #[trigger] before[i].0 == entries[q].0,
    ensures
        forall|q: int|
            0 <= q < e + 1 && holds_all_terms(postings, terms, want, #[trigger] entries[q].0) ==> exists|i: int|
                0 <= i < after.len() && #[trigger] after[i].0 == entries[q].0,
        after.len() > 0 ==> exists|q: int| 0 <= q < e + 1 && after[after.len() - 1].0 == #[trigger] entries[q].0,
{
    assert forall|q: int|
        0 <= q < e + 1 && holds_all_terms(postings, terms, want, #[trigger] entries[q].0) implies exists|i: int|
            0 <= i < after.len() && #[trigger] after[i].0 == entries[q].0 by {
        if q < e {
            let i = choose|i: int| 0 <= i < before.len() && #[trigger] before[i].0 == entries[q].0;
            assert(after[i] == before[i]);
        } else {
            assert(after[before.len() as int].0 == entries[q].0);
        }
    }
    assert(after[after.len() - 1].0 == entries[e].0);
}

} // verus!
