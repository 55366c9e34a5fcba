//! Persistent change maps from the `im` crate, used as the small ordered
//! overlay on top of a shared immutable base.

use super::posting_list::PostingList;
use super::PostingEntry;
use crate::text::text_less;
use im::OrdMap;
use std::sync::Arc;
use vstd::prelude::*;

verus! {

#[verifier::external_type_specification]
#[verifier::external_body]
#[verifier::reject_recursive_types(K)]
#[verifier::reject_recursive_types(V)]
pub struct ExOrdMap<K, V>(OrdMap<K, V>);

/// A document-length change map.
pub type LengthChanges = OrdMap<u64, Option<u32>>;

/// A posting change map.
pub type PostingChanges = OrdMap<u64, Option<PostingEntry>>;

/// A term change map.
pub type TermChanges = OrdMap<String, Option<Arc<PostingList>>>;

/// What a term change map holds, keyed by the term's characters:
/// `Some(list)` for a changed posting list, `None` for a removed term.
pub uninterp spec fn term_changes(changes: TermChanges) -> Map<
    Seq<char>,
    Option<Arc<PostingList>>,
>;

/// What a document-length change map holds: `Some(length)` for a changed
/// length, `None` for a removed document.
pub uninterp spec fn length_changes(changes: LengthChanges) -> Map<
    u64,
    Option<u32>,
>;

/// What a posting change map holds: `Some(entry)` for a changed entry,
/// `None` for a removed one.
pub uninterp spec fn posting_changes(changes: PostingChanges) -> Map<
    u64,
    Option<PostingEntry>,
>;

/// `OrdMap::new`: an empty change map.
#[verifier::external_body]
pub fn length_changes_new() -> (r: LengthChanges)
    ensures
        length_changes(r) =~= Map::empty(),
{
    OrdMap::new()
}

/// `OrdMap::clone`: a map with the same changes (sharing its nodes).
#[verifier::external_body]
pub fn length_changes_clone(changes: &LengthChanges) -> (r: LengthChanges)
    ensures
        length_changes(r) == length_changes(*changes),
{
    changes.clone()
}

/// `OrdMap::get`: the change recorded for `ordinal`.
#[verifier::external_body]
pub fn length_changes_get(changes: &LengthChanges, ordinal: u64) -> (r: Option<
    Option<u32>,
>)
    ensures
        length_changes(*changes).contains_key(ordinal) ==> r == Some(
            length_changes(*changes)[ordinal],
        ),
        !length_changes(*changes).contains_key(ordinal) ==> r is None,
{
    changes.get(&ordinal).copied()
}

/// `OrdMap::insert`: records `change` for `ordinal`, replacing any earlier one.
#[verifier::external_body]
pub fn length_changes_insert(
    changes: &mut LengthChanges,
    ordinal: u64,
    change: Option<u32>,
)
    ensures
        length_changes(*final(changes)) == length_changes(*old(changes)).insert(ordinal, change),
{
    changes.insert(ordinal, change);
}

/// `OrdMap::remove`: forgets the change recorded for `ordinal`.
#[verifier::external_body]
pub fn length_changes_remove(changes: &mut LengthChanges, ordinal: u64)
    ensures
        length_changes(*final(changes)) == length_changes(*old(changes)).remove(ordinal),
{
    changes.remove(&ordinal);
}

/// `OrdMap::len`: the number of recorded changes.
#[verifier::external_body]
pub fn length_changes_len(changes: &LengthChanges) -> (r: usize)
    ensures
        r == length_changes(*changes).dom().len(),
{
    changes.len()
}

/// `OrdMap::iter`: the recorded changes in increasing ordinal order.
#[verifier::external_body]
pub fn length_changes_entries(changes: &LengthChanges) -> (r: Vec<(u64, Option<u32>)>)
    ensures
        r@.len() == length_changes(*changes).dom().len(),
        forall|i: int, j: int| 0 <= i < j < r@.len() ==> r@[i].0 < r@[j].0,
        forall|i: int|
            0 <= i < r@.len() ==> length_changes(*changes).contains_key(#[trigger] r@[i].0)
                && length_changes(*changes)[r@[i].0] == r@[i].1,
        forall|k: u64|
            length_changes(*changes).contains_key(k) ==> exists|i: int|
                0 <= i < r@.len() && #[trigger] r@[i].0 == k,
{
    changes.iter().map(|(ordinal, change)| (*ordinal, *change)).collect()
}

/// `OrdMap::new`: an empty change map.
#[verifier::external_body]
pub fn posting_changes_new() -> (r: PostingChanges)
    ensures
        posting_changes(r) =~= Map::empty(),
{
    OrdMap::new()
}

/// `OrdMap::clone`: a map with the same changes (sharing its nodes).
#[verifier::external_body]
pub fn posting_changes_clone(changes: &PostingChanges) -> (r: PostingChanges)
    ensures
        posting_changes(r) == posting_changes(*changes),
{
    changes.clone()
}

/// `OrdMap::get`: the change recorded for `ordinal`.
#[verifier::external_body]
pub fn posting_changes_get(changes: &PostingChanges, ordinal: u64) -> (r:
    Option<Option<PostingEntry>>)
    ensures
        posting_changes(*changes).contains_key(ordinal) ==> r == Some(
            posting_changes(*changes)[ordinal],
        ),
        !posting_changes(*changes).contains_key(ordinal) ==> r is None,
{
    changes.get(&ordinal).copied()
}

/// `OrdMap::insert`: records `change` for `ordinal`, replacing any earlier one.
#[verifier::external_body]
pub fn posting_changes_insert(
    changes: &mut PostingChanges,
    ordinal: u64,
    change: Option<PostingEntry>,
)
    ensures
        posting_changes(*final(changes)) == posting_changes(*old(changes)).insert(ordinal, change),
{
    changes.insert(ordinal, change);
}

/// `OrdMap::remove`: forgets the change recorded for `ordinal`.
#[verifier::external_body]
pub fn posting_changes_remove(changes: &mut PostingChanges, ordinal: u64)
    ensures
        posting_changes(*final(changes)) == posting_changes(*old(changes)).remove(ordinal),
{
    changes.remove(&ordinal);
}

/// `OrdMap::len`: the number of recorded changes.
#[verifier::external_body]
pub fn posting_changes_len(changes: &PostingChanges) -> (r: usize)
    ensures
        r == posting_changes(*changes).dom().len(),
{
    changes.len()
}

/// `OrdMap::iter`: the recorded changes in increasing ordinal order.
#[verifier::external_body]
pub fn posting_changes_entries(changes: &PostingChanges) -> (r: Vec<
    (u64, Option<PostingEntry>),
>)
    ensures
        r@.len() == posting_changes(*changes).dom().len(),
        forall|i: int, j: int| 0 <= i < j < r@.len() ==> r@[i].0 < r@[j].0,
        forall|i: int|
            0 <= i < r@.len() ==> posting_changes(*changes).contains_key(#[trigger] r@[i].0)
                && posting_changes(*changes)[r@[i].0] == r@[i].1,
        forall|k: u64|
            posting_changes(*changes).contains_key(k) ==> exists|i: int|
                0 <= i < r@.len() && #[trigger] r@[i].0 == k,
{
    changes.iter().map(|(ordinal, change)| (*ordinal, *change)).collect()
}

/// `OrdMap::new`: an empty change map.
#[verifier::external_body]
pub fn term_changes_new() -> (r: TermChanges)
    ensures
        term_changes(r) =~= Map::empty(),
{
    OrdMap::new()
}

/// `OrdMap::clone`: a map with the same changes (sharing its nodes).
#[verifier::external_body]
pub fn term_changes_clone(changes: &TermChanges) -> (r: TermChanges)
    ensures
        term_changes(r) == term_changes(*changes),
{
    changes.clone()
}

/// `OrdMap::get`: the change recorded for `term` (a `String` key is found
/// by its `str`).
#[verifier::external_body]
pub fn term_changes_get(changes: &TermChanges, term: &str) -> (r: Option<
    Option<Arc<PostingList>>,
>)
    ensures
        term_changes(*changes).contains_key(term@) ==> r == Some(term_changes(*changes)[term@]),
        !term_changes(*changes).contains_key(term@) ==> r is None,
{
    changes.get(term).cloned()
}

/// `OrdMap::insert`: records `change` for `term`, replacing any earlier one.
#[verifier::external_body]
pub fn term_changes_insert(
    changes: &mut TermChanges,
    term: String,
    change: Option<Arc<PostingList>>,
)
    ensures
        term_changes(*final(changes)) == term_changes(*old(changes)).insert(term@, change),
{
    changes.insert(term, change);
}

/// `OrdMap::remove`: forgets the change recorded for `term`.
#[verifier::external_body]
pub fn term_changes_remove(changes: &mut TermChanges, term: &str)
    ensures
        term_changes(*final(changes)) == term_changes(*old(changes)).remove(term@),
{
    changes.remove(term);
}

/// `OrdMap::len`: the number of recorded changes.
#[verifier::external_body]
pub fn term_changes_len(changes: &TermChanges) -> (r: usize)
    ensures
        r == term_changes(*changes).dom().len(),
{
    changes.len()
}

/// `OrdMap::iter`: the recorded changes in increasing key order. `String`
/// orders by its UTF-8 bytes, which is the order of its characters' code
/// points, so the terms come out in `text_less` order.
#[verifier::external_body]
pub fn term_changes_entries(changes: &TermChanges) -> (r: Vec<
    (String, Option<Arc<PostingList>>),
>)
    ensures
        r@.len() == term_changes(*changes).dom().len(),
        forall|i: int, j: int| 0 <= i < j < r@.len() ==> text_less(r@[i].0@, r@[j].0@),
        forall|i: int|
            0 <= i < r@.len() ==> term_changes(*changes).contains_key(#[trigger] r@[i].0@)
                && term_changes(*changes)[r@[i].0@] == r@[i].1,
        forall|k: Seq<char>|
            term_changes(*changes).contains_key(k) ==> exists|i: int|
                0 <= i < r@.len() && #[trigger] r@[i].0@ == k,
{
    changes.iter().map(|(term, change)| (term.clone(), change.clone())).collect()
}

} // verus!
