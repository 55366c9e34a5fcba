//! Persistent full-text term dictionary: a shared base of terms in text
//! order with their posting lists, plus a small persistent change map.

use super::overlay::{
    term_changes, term_changes_clone, term_changes_entries, term_changes_get, term_changes_insert,
    term_changes_len, term_changes_new, term_changes_remove, TermChanges,
};
use super::posting_list::PostingList;
use super::{compaction_limit, same_allocation, share};
use crate::error::{Error, ErrorCode, Result};
use crate::index::limits::spec_compaction_limit;
use crate::text::{compare_text, lemma_text_order, text_less, TextOrder};
use std::sync::Arc;
use vstd::prelude::*;

verus! {

/// Terms that strictly increase in text order.
pub open spec fn terms_ascending<V>(entries: Seq<(String, V)>) -> bool {
    forall|i: int, j: int|
        #![trigger entries[i], entries[j]]
        0 <= i < j < entries.len() ==> text_less(entries[i].0@, entries[j].0@)
}

/// The pairs of a term list as a map keyed by the terms' characters.
pub open spec fn term_map<V>(entries: Seq<(String, V)>) -> Map<Seq<char>, V> {
    Map::new(
        |k: Seq<char>| exists|i: int| 0 <= i < entries.len() && #[trigger] entries[i].0@ == k,
        |k: Seq<char>|
            entries[choose|i: int| 0 <= i < entries.len() && #[trigger] entries[i].0@ == k].1,
    )
}

/// The terms visible through a base and its change map: a change for a term
/// shadows the base entry, and a `None` change hides it.
pub open spec fn term_overlay<V>(base: Map<Seq<char>, V>, changes: Map<Seq<char>, Option<V>>) -> Map<
    Seq<char>,
    V,
> {
    Map::new(
        |k: Seq<char>|
            if changes.contains_key(k) {
                changes[k] is Some
            } else {
                base.contains_key(k)
            },
        |k: Seq<char>|
            if changes.contains_key(k) {
                changes[k]->0
            } else {
                base[k]
            },
    )
}

/// `entries` lists exactly the pairs of `map`, in increasing text order.
pub open spec fn in_term_order<V>(entries: Seq<(String, V)>, map: Map<Seq<char>, V>) -> bool {
    &&& terms_ascending(entries)
    &&& forall|i: int|
        0 <= i < entries.len() ==> map.contains_key(#[trigger] entries[i].0@) && map[entries[i].0@]
            == entries[i].1
    &&& forall|k: Seq<char>|
        map.contains_key(k) ==> exists|i: int| 0 <= i < entries.len() && #[trigger] entries[i].0@ == k
}

/// Every change names a non-empty term, and a removal hides a base term.
pub open spec fn term_changes_sound(
    base: Seq<(String, Arc<PostingList>)>,
    changes: Map<Seq<char>, Option<Arc<PostingList>>>,
) -> bool {
    forall|k: Seq<char>|
        #[trigger] changes.contains_key(k) ==> k.len() > 0 && (changes[k] is Some || term_map(
            base,
        ).contains_key(k))
}

/// `k` sorts before the entry at `index`, or the list is exhausted there.
pub open spec fn before_entry<V>(k: Seq<char>, entries: Seq<(String, V)>, index: int) -> bool {
    index >= entries.len() || text_less(k, entries[index].0@)
}

proof fn lemma_term_lookup<V>(entries: Seq<(String, V)>, i: int)
    requires
        terms_ascending(entries),
        0 <= i < entries.len(),
    ensures
        term_map(entries).contains_key(entries[i].0@),
        term_map(entries)[entries[i].0@] == entries[i].1,
{
    lemma_text_order();
    let k = entries[i].0@;
    let j = choose|j: int| 0 <= j < entries.len() && #[trigger] entries[j].0@ == k;
    if j < i {
        assert(text_less(entries[j].0@, entries[i].0@));
    } else if j > i {
        assert(text_less(entries[i].0@, entries[j].0@));
    }
}

proof fn lemma_term_map_finite<V>(entries: Seq<(String, V)>)
    requires
        terms_ascending(entries),
    ensures
        term_map(entries).dom().finite(),
        term_map(entries).dom().len() == entries.len(),
{
    lemma_text_order();
    let keys = entries.map_values(|e: (String, V)| e.0@);
    assert(keys.no_duplicates()) by {
        assert forall|i: int, j: int|
            0 <= i < keys.len() && 0 <= j < keys.len() && i != j implies keys[i] != keys[j] by {
            if i < j {
                assert(text_less(entries[i].0@, entries[j].0@));
            } else {
                assert(text_less(entries[j].0@, entries[i].0@));
            }
        }
    }
    keys.unique_seq_to_set();
    assert forall|k: Seq<char>| #[trigger] keys.to_set().contains(k) <==> term_map(
        entries,
    ).dom().contains(k) by {
        if keys.to_set().contains(k) {
            let i = choose|i: int| 0 <= i < keys.len() && keys[i] == k;
            assert(entries[i].0@ == k);
        }
        if term_map(entries).dom().contains(k) {
            let i = choose|i: int| 0 <= i < entries.len() && #[trigger] entries[i].0@ == k;
            assert(keys[i] == k);
        }
    }
    assert(keys.to_set() =~= term_map(entries).dom());
}

/// A map whose keys all occur in a list is finite.
proof fn lemma_listed_keys_finite<V, W>(entries: Seq<(String, V)>, map: Map<Seq<char>, W>)
    requires
        forall|k: Seq<char>|
            map.contains_key(k) ==> exists|i: int|
                0 <= i < entries.len() && #[trigger] entries[i].0@ == k,
    ensures
        map.dom().finite(),
{
    let keys = entries.map_values(|e: (String, V)| e.0@);
    assert(map.dom().subset_of(keys.to_set())) by {
        assert forall|k: Seq<char>| map.dom().contains(k) implies keys.to_set().contains(k) by {
            let i = choose|i: int| 0 <= i < entries.len() && #[trigger] entries[i].0@ == k;
            assert(keys[i] == k);
        }
    }
    vstd::seq_lib::seq_to_set_is_finite(keys);
    vstd::set_lib::lemma_set_subset_finite(keys.to_set(), map.dom());
}

/// A listing in term order is its own term map.
proof fn lemma_term_order_map<V>(entries: Seq<(String, V)>, map: Map<Seq<char>, V>)
    requires
        in_term_order(entries, map),
    ensures
        term_map(entries) == map,
{
    assert forall|k: Seq<char>| #[trigger] term_map(entries).contains_key(k) == map.contains_key(k) by {
        if map.contains_key(k) {
            let i = choose|i: int| 0 <= i < entries.len() && #[trigger] entries[i].0@ == k;
            assert(entries[i].0@ == k);
        }
    }
    assert forall|k: Seq<char>| #[trigger] term_map(entries).contains_key(k) implies term_map(
        entries,
    )[k] == map[k] by {
        let i = choose|i: int| 0 <= i < entries.len() && #[trigger] entries[i].0@ == k;
        lemma_term_lookup(entries, i);
    }
    assert(term_map(entries) =~= map);
}

/// A key before one position of an ascending list is before every later one.
proof fn lemma_before_moves<V>(k: Seq<char>, entries: Seq<(String, V)>, i: int, i2: int)
    requires
        terms_ascending(entries),
        0 <= i <= i2,
        before_entry(k, entries, i),
    ensures
        before_entry(k, entries, i2),
{
    lemma_text_order();
    if i < i2 && i2 < entries.len() {
        assert(text_less(entries[i].0@, entries[i2].0@));
    }
}

/// A visible key that was not before the old merge fronts but is before the
/// new ones is the key just processed: the one the advanced fronts held.
proof fn lemma_merge_gap<V>(
    base: Seq<(String, V)>,
    changes: Seq<(String, Option<V>)>,
    change_map: Map<Seq<char>, Option<V>>,
    bi: int,
    ci: int,
    bi2: int,
    ci2: int,
    k: Seq<char>,
)
    requires
        terms_ascending(base),
        terms_ascending(changes),
        forall|i: int|
            0 <= i < changes.len() ==> change_map.contains_key(#[trigger] changes[i].0@)
                && change_map[changes[i].0@] == changes[i].1,
        forall|key: Seq<char>|
            change_map.contains_key(key) ==> exists|i: int|
                0 <= i < changes.len() && #[trigger] changes[i].0@ == key,
        0 <= bi <= bi2 <= base.len(),
        bi2 <= bi + 1,
        0 <= ci <= ci2 <= changes.len(),
        ci2 <= ci + 1,
        forall|j: int| 0 <= j < bi ==> before_entry(#[trigger] base[j].0@, changes, ci),
        forall|j: int| 0 <= j < ci ==> before_entry(#[trigger] changes[j].0@, base, bi),
        term_overlay(term_map(base), change_map).contains_key(k),
        before_entry(k, base, bi2),
        before_entry(k, changes, ci2),
        !(before_entry(k, base, bi) && before_entry(k, changes, ci)),
    ensures
        (bi2 == bi + 1 && k == base[bi].0@) || (ci2 == ci + 1 && k == changes[ci].0@),
{
    lemma_text_order();
    if change_map.contains_key(k) {
        let j = choose|j: int| 0 <= j < changes.len() && #[trigger] changes[j].0@ == k;
        if j < ci {
            assert(before_entry(changes[j].0@, base, bi));
            lemma_before_moves(k, changes, j + 1, ci);
            assert(before_entry(k, changes, j + 1)) by {
                if j + 1 < changes.len() {
                    assert(text_less(changes[j].0@, changes[j + 1].0@));
                }
            }
        } else if j >= ci2 {
            if j > ci2 {
                assert(text_less(changes[ci2].0@, changes[j].0@));
            }
        }
    } else {
        let j = choose|j: int| 0 <= j < base.len() && #[trigger] base[j].0@ == k;
        if j < bi {
            assert(before_entry(base[j].0@, changes, ci));
            lemma_before_moves(k, base, j + 1, bi);
            assert(before_entry(k, base, j + 1)) by {
                if j + 1 < base.len() {
                    assert(text_less(base[j].0@, base[j + 1].0@));
                }
            }
        } else if j >= bi2 {
            if j > bi2 {
                assert(text_less(base[bi2].0@, base[j].0@));
            }
        }
    }
}

/// The terms of a full-text index: a shared base sorted by term plus a
/// small persistent change map, with the live term count. A clone shares
/// the base.
pub struct TermDictionary {
    base: Arc<Vec<(String, Arc<PostingList>)>>,
    changes: TermChanges,
    live_len: usize,
}

impl View for TermDictionary {
    type V = Map<Seq<char>, Arc<PostingList>>;

    closed spec fn view(&self) -> Map<Seq<char>, Arc<PostingList>> {
        term_overlay(term_map(self.base@), term_changes(self.changes))
    }
}

impl Clone for TermDictionary {
    /// A copy that shares the base and the change map's nodes.
    fn clone(&self) -> (r: Self)
        ensures
            r.base_entries() == self.base_entries(),
            r.pending_changes() == self.pending_changes(),
            r@ == self@,
            r.well_formed() == self.well_formed(),
    {
        TermDictionary {
            base: share(&self.base),
            changes: term_changes_clone(&self.changes),
            live_len: self.live_len,
        }
    }
}

impl TermDictionary {
    /// The base is sorted by term, the live count matches the visible
    /// terms, and the change map is finite.
    pub closed spec fn well_formed(&self) -> bool {
        &&& terms_ascending(self.base@)
        &&& self@.dom().finite()
        &&& self.live_len == self@.dom().len()
        &&& term_changes(self.changes).dom().finite()
    }

    /// A well-formed dictionary holds finitely many terms, at most
    /// `usize::MAX`.
    pub proof fn lemma_finite(&self)
        requires
            self.well_formed(),
        ensures
            self@.dom().finite(),
            self@.dom().len() <= usize::MAX,
    {
    }

    /// The shared base entries.
    pub closed spec fn base_entries(&self) -> Seq<(String, Arc<PostingList>)> {
        self.base@
    }

    /// The pending changes on top of the base.
    pub closed spec fn pending_changes(&self) -> Map<Seq<char>, Option<Arc<PostingList>>> {
        term_changes(self.changes)
    }

    /// A dictionary whose base holds `entries`, which must be sorted by term.
    pub fn from_sorted_entries(entries: Vec<(String, Arc<PostingList>)>) -> (r: Self)
        requires
            terms_ascending(entries@),
        ensures
            r.well_formed(),
            r@ == term_map(entries@),
            r.base_entries() == entries@,
            r.pending_changes().dom().len() == 0,
    {
        proof {
            lemma_term_map_finite(entries@);
        }
        let live_len = entries.len();
        let dictionary = Self { base: Arc::new(entries), changes: term_changes_new(), live_len };
        proof {
            assert(dictionary@ =~= term_map(entries@));
        }
        dictionary
    }

    /// The posting list of `term`.
    pub fn get(&self, term: &str) -> (r: Option<Arc<PostingList>>)
        requires
            self.well_formed(),
        ensures
            r == if self@.contains_key(term@) {
                Some(self@[term@])
            } else {
                None::<Arc<PostingList>>
            },
    {
        match term_changes_get(&self.changes, term) {
            Some(change) => change,
            None => self.base_entry(term),
        }
    }

    /// Stores `posting` for `term`, replacing any earlier list. A term count
    /// that cannot grow is an error and changes nothing.
    pub fn insert(&mut self, term: String, posting: Arc<PostingList>) -> (r: Result<()>)
        requires
            old(self).well_formed(),
        ensures
            final(self).well_formed(),
            final(self).base_entries() == old(self).base_entries(),
            !old(self)@.contains_key(term@) && old(self)@.dom().len() == usize::MAX ==> (r matches Err(
                e,
            ) && e.code == ErrorCode::ResourceExhausted) && *final(self) == *old(self),
            old(self)@.contains_key(term@) || old(self)@.dom().len() < usize::MAX ==> r is Ok
                && final(self)@ == old(self)@.insert(term@, posting),
    {
        let existed = self.get(term.as_str()).is_some();
        let live_len = if existed {
            self.live_len
        } else {
            if self.live_len == usize::MAX {
                return Err(Error::resource_exhausted("FTS term count overflow"));
            }
            self.live_len + 1
        };
        let ghost before = self@;
        let ghost key = term@;
        term_changes_insert(&mut self.changes, term, Some(posting));
        self.live_len = live_len;
        proof {
            assert(self@ =~= before.insert(key, posting));
        }
        Ok(())
    }

    /// Removes `term`; false when it is absent.
    pub fn remove(&mut self, term: &str) -> (r: bool)
        requires
            old(self).well_formed(),
        ensures
            final(self).well_formed(),
            final(self).base_entries() == old(self).base_entries(),
            r == old(self)@.contains_key(term@),
            final(self)@ == old(self)@.remove(term@),
    {
        if self.get(term).is_none() {
            proof {
                assert(old(self)@ =~= old(self)@.remove(term@));
            }
            return false;
        }
        let ghost before = self@;
        if self.base_entry(term).is_some() {
            term_changes_insert(&mut self.changes, term.to_owned(), None);
        } else {
            term_changes_remove(&mut self.changes, term);
        }
        self.live_len = self.live_len - 1;
        proof {
            assert(self@ =~= before.remove(term@));
        }
        true
    }

    /// Folds the changes into a new sorted base once they reach the
    /// compaction limit of the current base; meant to run once after a whole
    /// batch of changes.
    pub fn finish_changes(&mut self)
        requires
            old(self).well_formed(),
        ensures
            final(self).well_formed(),
            final(self)@ == old(self)@,
            old(self).pending_changes().dom().len() < spec_compaction_limit(
                old(self).base_entries().len() as int,
            ) ==> *final(self) == *old(self),
            old(self).pending_changes().dom().len() >= spec_compaction_limit(
                old(self).base_entries().len() as int,
            ) ==> final(self).pending_changes().dom().len() == 0 && in_term_order(
                final(self).base_entries(),
                old(self)@,
            ),
    {
        if term_changes_len(&self.changes) < compaction_limit(self.base.len()) {
            return;
        }
        let base = self.merged();
        let ghost view = self@;
        proof {
            lemma_term_order_map(base@, view);
            lemma_term_map_finite(base@);
        }
        self.base = Arc::new(base);
        self.changes = term_changes_new();
        proof {
            assert(self@ =~= view);
        }
    }

    /// The terms and their posting lists in increasing term order, merging
    /// the base with the changes.
    pub fn iter(&self) -> (r: Vec<(String, Arc<PostingList>)>)
        requires
            self.well_formed(),
        ensures
            in_term_order(r@, self@),
    {
        self.merged()
    }

    fn merged(&self) -> (r: Vec<(String, Arc<PostingList>)>)
        requires
            terms_ascending(self.base@),
        ensures
            in_term_order(r@, self@),
    {
        let changes = term_changes_entries(&self.changes);
        let ghost change_map = term_changes(self.changes);
        let ghost base = self.base@;
        let base_len = self.base.len();
        let change_len = changes.len();
        let mut out: Vec<(String, Arc<PostingList>)> = Vec::new();
        let mut bi: usize = 0;
        let mut ci: usize = 0;
        proof {
            lemma_text_order();
            assert forall|k: Seq<char>|
                self@.contains_key(k) && before_entry(k, base, 0) && before_entry(
                    k,
                    changes@,
                    0,
                ) implies exists|i: int| 0 <= i < out@.len() && #[trigger] out@[i].0@ == k by {
                if change_map.contains_key(k) {
                    let j = choose|j: int| 0 <= j < changes@.len() && #[trigger] changes@[j].0@ == k;
                    if j > 0 {
                        assert(text_less(changes@[0].0@, changes@[j].0@));
                    }
                } else {
                    let j = choose|j: int| 0 <= j < base.len() && #[trigger] base[j].0@ == k;
                    if j > 0 {
                        assert(text_less(base[0].0@, base[j].0@));
                    }
                }
            }
        }
        while bi < base_len || ci < change_len
            invariant
                base == self.base@,
                change_map == term_changes(self.changes),
                base_len == base.len(),
                change_len == changes@.len(),
                terms_ascending(base),
                terms_ascending(changes@),
                forall|i: int|
                    0 <= i < changes@.len() ==> change_map.contains_key(#[trigger] changes@[i].0@)
                        && change_map[changes@[i].0@] == changes@[i].1,
                forall|key: Seq<char>|
                    change_map.contains_key(key) ==> exists|i: int|
                        0 <= i < changes@.len() && #[trigger] changes@[i].0@ == key,
                self@ == term_overlay(term_map(base), change_map),
                bi <= base_len,
                ci <= change_len,
                forall|j: int|
                    0 <= j < bi ==> before_entry(#[trigger] base[j].0@, changes@, ci as int),
                forall|j: int|
                    0 <= j < ci ==> before_entry(#[trigger] changes@[j].0@, base, bi as int),
                terms_ascending(out@),
                forall|i: int|
                    0 <= i < out@.len() ==> before_entry(#[trigger] out@[i].0@, base, bi as int)
                        && before_entry(out@[i].0@, changes@, ci as int),
                forall|i: int|
                    0 <= i < out@.len() ==> self@.contains_key(#[trigger] out@[i].0@)
                        && self@[out@[i].0@] == out@[i].1,
                forall|k: Seq<char>|
                    self@.contains_key(k) && before_entry(k, base, bi as int) && before_entry(
                        k,
                        changes@,
                        ci as int,
                    ) ==> exists|i: int| 0 <= i < out@.len() && #[trigger] out@[i].0@ == k,
            decreases (base_len - bi) + (change_len - ci),
        {
            let ghost before = out@;
            let take_base: bool;
            let take_change: bool;
            if ci >= change_len {
                take_base = true;
                take_change = false;
            } else if bi >= base_len {
                take_base = false;
                take_change = true;
            } else {
                match compare_text(self.base[bi].0.as_str(), changes[ci].0.as_str()) {
                    TextOrder::Less => {
                        take_base = true;
                        take_change = false;
                    },
                    TextOrder::Greater => {
                        take_base = false;
                        take_change = true;
                    },
                    TextOrder::Equal => {
                        take_base = true;
                        take_change = true;
                    },
                }
            }
            let ghost processed: Seq<char> = if take_change {
                changes@[ci as int].0@
            } else {
                base[bi as int].0@
            };
            proof {
                lemma_text_order();
                if take_base && !take_change && change_map.contains_key(processed) {
                    let j = choose|j: int|
                        0 <= j < changes@.len() && #[trigger] changes@[j].0@ == processed;
                    if j >= ci as int {
                        if j > ci as int {
                            assert(text_less(changes@[ci as int].0@, changes@[j].0@));
                        }
                    } else {
                        assert(before_entry(changes@[j].0@, base, bi as int));
                    }
                }
                if take_base && !take_change {
                    lemma_term_lookup(base, bi as int);
                }
            }
            if take_change {
                match &changes[ci].1 {
                    Some(posting) => {
                        out.push((changes[ci].0.clone(), share(posting)));
                    },
                    None => {},
                }
            } else {
                out.push((self.base[bi].0.clone(), share(&self.base[bi].1)));
            }
            let next_bi: usize = if take_base {
                bi + 1
            } else {
                bi
            };
            let next_ci: usize = if take_change {
                ci + 1
            } else {
                ci
            };
            proof {
                lemma_text_order();
                assert(before_entry(processed, base, next_bi as int)) by {
                    if take_base && (next_bi as int) < base.len() {
                        assert(text_less(base[bi as int].0@, base[next_bi as int].0@));
                    }
                }
                assert(before_entry(processed, changes@, next_ci as int)) by {
                    if take_change && (next_ci as int) < changes@.len() {
                        assert(text_less(changes@[ci as int].0@, changes@[next_ci as int].0@));
                    }
                }
                assert forall|j: int| 0 <= j < next_bi implies before_entry(
                    #[trigger] base[j].0@,
                    changes@,
                    next_ci as int,
                ) by {
                    if j < bi {
                        lemma_before_moves(base[j].0@, changes@, ci as int, next_ci as int);
                    }
                }
                assert forall|j: int| 0 <= j < next_ci implies before_entry(
                    #[trigger] changes@[j].0@,
                    base,
                    next_bi as int,
                ) by {
                    if j < ci {
                        lemma_before_moves(changes@[j].0@, base, bi as int, next_bi as int);
                    }
                }
                assert forall|i: int| 0 <= i < out@.len() implies before_entry(
                    #[trigger] out@[i].0@,
                    base,
                    next_bi as int,
                ) && before_entry(out@[i].0@, changes@, next_ci as int) by {
                    if i < before.len() {
                        assert(out@[i] == before[i]);
                        lemma_before_moves(out@[i].0@, base, bi as int, next_bi as int);
                        lemma_before_moves(out@[i].0@, changes@, ci as int, next_ci as int);
                    }
                }
                assert forall|i: int, j: int|
                    #![trigger out@[i], out@[j]]
                    0 <= i < j < out@.len() implies text_less(out@[i].0@, out@[j].0@) by {
                    if j >= before.len() {
                        assert(out@[i] == before[i]);
                        if take_change {
                            assert(before_entry(before[i].0@, changes@, ci as int));
                        } else {
                            assert(before_entry(before[i].0@, base, bi as int));
                        }
                    } else {
                        assert(out@[i] == before[i]);
                        assert(out@[j] == before[j]);
                    }
                }
                assert forall|i: int| 0 <= i < out@.len() implies self@.contains_key(
                    #[trigger] out@[i].0@,
                ) && self@[out@[i].0@] == out@[i].1 by {
                    if i < before.len() {
                        assert(out@[i] == before[i]);
                    }
                }
                assert forall|k: Seq<char>|
                    self@.contains_key(k) && before_entry(k, base, next_bi as int) && before_entry(
                        k,
                        changes@,
                        next_ci as int,
                    ) implies exists|i: int| 0 <= i < out@.len() && #[trigger] out@[i].0@ == k by {
                    if before_entry(k, base, bi as int) && before_entry(k, changes@, ci as int) {
                        let i = choose|i: int| 0 <= i < before.len() && #[trigger] before[i].0@ == k;
                        assert(out@[i] == before[i]);
                    } else {
                        lemma_merge_gap(
                            base,
                            changes@,
                            change_map,
                            bi as int,
                            ci as int,
                            next_bi as int,
                            next_ci as int,
                            k,
                        );
                        assert(k == processed);
                        assert(out@[out@.len() - 1].0@ == k);
                    }
                }
            }
            bi = next_bi;
            ci = next_ci;
        }
        proof {
            assert forall|k: Seq<char>| self@.contains_key(k) implies exists|i: int|
                0 <= i < out@.len() && #[trigger] out@[i].0@ == k by {
                assert(before_entry(k, base, bi as int));
                assert(before_entry(k, changes@, ci as int));
            }
        }
        out
    }

    /// Whether the changes are below the compaction limit, the base is
    /// sorted by term, every change names a non-empty term and removes only
    /// base terms, every visible term is non-empty, and the live count
    /// matches the visible terms.
    pub fn validates(&self) -> (r: bool)
        ensures
            r == (self.well_formed() && self.pending_changes().dom().len() < spec_compaction_limit(
                self.base_entries().len() as int,
            ) && term_changes_sound(self.base_entries(), self.pending_changes()) && forall|
                k: Seq<char>,
            | #[trigger] self@.contains_key(k) ==> k.len() > 0),
    {
        if term_changes_len(&self.changes) >= compaction_limit(self.base.len()) {
            return false;
        }
        let n = self.base.len();
        let mut i: usize = 0;
        while i + 1 < n
            invariant
                n == self.base@.len(),
                i < n || i == 0,
                forall|a: int, b: int|
                    #![trigger self.base@[a], self.base@[b]]
                    0 <= a < b <= i && b < n ==> text_less(self.base@[a].0@, self.base@[b].0@),
            decreases n - i,
        {
            if compare_text(self.base[i].0.as_str(), self.base[i + 1].0.as_str())
                != TextOrder::Less {
                proof {
                    assert(!terms_ascending(self.base@)) by {
                        assert(!text_less(self.base@[i as int].0@, self.base@[i + 1].0@));
                    }
                }
                return false;
            }
            proof {
                lemma_text_order();
                assert forall|a: int, b: int|
                    #![trigger self.base@[a], self.base@[b]]
                    0 <= a < b <= i + 1 && b < n implies text_less(
                        self.base@[a].0@,
                        self.base@[b].0@,
                    ) by {
                    if b == i + 1 && a < i {
                        assert(text_less(self.base@[a].0@, self.base@[i as int].0@));
                    }
                }
            }
            i = i + 1;
        }
        assert(terms_ascending(self.base@));
        let changes = term_changes_entries(&self.changes);
        let ghost change_map = term_changes(self.changes);
        proof {
            lemma_listed_keys_finite(changes@, change_map);
        }
        let mut c: usize = 0;
        while c < changes.len()
            invariant
                c <= changes@.len(),
                terms_ascending(self.base@),
                change_map == term_changes(self.changes),
                forall|j: int|
                    0 <= j < changes@.len() ==> change_map.contains_key(#[trigger] changes@[j].0@)
                        && change_map[changes@[j].0@] == changes@[j].1,
                forall|j: int|
                    0 <= j < c ==> (#[trigger] changes@[j]).0@.len() > 0 && (changes@[j].1 is Some
                        || term_map(self.base@).contains_key(changes@[j].0@)),
            decreases changes@.len() - c,
        {
            let term = changes[c].0.as_str();
            if term.is_empty() || (changes[c].1.is_none() && self.base_entry(term).is_none()) {
                proof {
                    assert(!term_changes_sound(self.base@, change_map)) by {
                        assert(change_map.contains_key(changes@[c as int].0@));
                    }
                }
                return false;
            }
            c = c + 1;
        }
        proof {
            assert forall|k: Seq<char>| #[trigger] change_map.contains_key(k) implies k.len() > 0 && (
            change_map[k] is Some || term_map(self.base@).contains_key(k)) by {
                let j = choose|j: int| 0 <= j < changes@.len() && #[trigger] changes@[j].0@ == k;
                assert(changes@[j].0@ == k);
            }
        }
        let entries = self.merged();
        proof {
            lemma_term_order_map(entries@, self@);
            lemma_term_map_finite(entries@);
        }
        let mut e: usize = 0;
        while e < entries.len()
            invariant
                e <= entries@.len(),
                in_term_order(entries@, self@),
                forall|j: int| 0 <= j < e ==> (#[trigger] entries@[j]).0@.len() > 0,
            decreases entries@.len() - e,
        {
            if entries[e].0.as_str().is_empty() {
                proof {
                    assert(self@.contains_key(entries@[e as int].0@));
                }
                return false;
            }
            e = e + 1;
        }
        proof {
            assert forall|k: Seq<char>| #[trigger] self@.contains_key(k) implies k.len() > 0 by {
                let j = choose|j: int| 0 <= j < entries@.len() && #[trigger] entries@[j].0@ == k;
                assert(entries@[j].0@ == k);
            }
        }
        entries.len() == self.live_len
    }

    /// Binary search of the sorted base.
    fn base_entry(&self, term: &str) -> (r: Option<Arc<PostingList>>)
        requires
            terms_ascending(self.base@),
        ensures
            r == if term_map(self.base@).contains_key(term@) {
                Some(term_map(self.base@)[term@])
            } else {
                None::<Arc<PostingList>>
            },
    {
        let mut low: usize = 0;
        let mut high: usize = self.base.len();
        while low < high
            invariant
                low <= high <= self.base@.len(),
                terms_ascending(self.base@),
                forall|i: int| 0 <= i < low ==> text_less(#[trigger] self.base@[i].0@, term@),
                forall|i: int|
                    high <= i < self.base@.len() ==> text_less(term@, #[trigger] self.base@[i].0@),
            decreases high - low,
        {
            let middle = low + (high - low) / 2;
            match compare_text(self.base[middle].0.as_str(), term) {
                TextOrder::Equal => {
                    proof {
                        lemma_term_lookup(self.base@, middle as int);
                    }
                    return Some(share(&self.base[middle].1));
                },
                TextOrder::Less => {
                    proof {
                        lemma_text_order();
                        assert forall|i: int| 0 <= i < middle + 1 implies text_less(
                            #[trigger] self.base@[i].0@,
                            term@,
                        ) by {
                            if i < middle {
                                assert(text_less(self.base@[i].0@, self.base@[middle as int].0@));
                            }
                        }
                    }
                    low = middle + 1;
                },
                TextOrder::Greater => {
                    proof {
                        lemma_text_order();
                        assert forall|i: int| middle <= i < self.base@.len() implies text_less(
                            term@,
                            #[trigger] self.base@[i].0@,
                        ) by {
                            if i > middle {
                                assert(text_less(self.base@[middle as int].0@, self.base@[i].0@));
                            }
                        }
                    }
                    high = middle;
                },
            }
        }
        proof {
            lemma_text_order();
            if term_map(self.base@).contains_key(term@) {
                let i = choose|i: int| 0 <= i < self.base@.len() && #[trigger] self.base@[i].0@ == term@;
                assert(self.base@[i].0@ == term@);
            }
        }
        None
    }

    /// Whether `self` and `other` share one base allocation.
    pub fn base_ptr_eq(&self, other: &Self) -> (r: bool)
        ensures
            r ==> self.base_entries() == other.base_entries(),
    {
        same_allocation(&self.base, &other.base)
    }

    /// The number of base entries.
    pub fn base_len(&self) -> (r: usize)
        ensures
            r == self.base_entries().len(),
    {
        self.base.len()
    }

    /// The number of pending changes.
    pub fn change_len(&self) -> (r: usize)
        ensures
            r == self.pending_changes().dom().len(),
    {
        term_changes_len(&self.changes)
    }
}

} // verus!
