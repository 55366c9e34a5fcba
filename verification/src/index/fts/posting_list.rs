//! Persistent full-text posting lists with a contiguous immutable base.

use super::{compaction_limit, same_allocation, share};
use super::document_lengths::DocumentLengths;
use super::overlay::{
    posting_changes, posting_changes_clone, posting_changes_entries, posting_changes_get,
    posting_changes_insert,
    posting_changes_len, posting_changes_new, posting_changes_remove, PostingChanges,
};
use super::PostingEntry;
use crate::error::{Error, ErrorCode, Result};
use crate::index::limits::spec_compaction_limit;
use std::sync::Arc;
use vstd::prelude::*;

verus! {

/// Entries whose ordinals strictly increase.
pub open spec fn strictly_sorted<V>(entries: Seq<(u64, V)>) -> bool {
    forall|i: int, j: int| 0 <= i < j < entries.len() ==> entries[i].0 < entries[j].0
}

/// The pairs of a list of entries as a map.
pub open spec fn entries_map<V>(entries: Seq<(u64, V)>) -> Map<u64, V> {
    Map::new(
        |k: u64| exists|i: int| 0 <= i < entries.len() && #[trigger] entries[i].0 == k,
        |k: u64| entries[choose|i: int| 0 <= i < entries.len() && #[trigger] entries[i].0 == k].1,
    )
}

/// The entries visible through a base and its change map: a change for an
/// ordinal shadows the base entry, and a `None` change hides it.
pub open spec fn overlay<V>(base: Map<u64, V>, changes: Map<u64, Option<V>>) -> Map<u64, V> {
    Map::new(
        |k: u64|
            if changes.contains_key(k) {
                changes[k] is Some
            } else {
                base.contains_key(k)
            },
        |k: u64|
            if changes.contains_key(k) {
                changes[k]->0
            } else {
                base[k]
            },
    )
}

/// `entries` lists exactly the pairs of `map`, in increasing ordinal order.
pub open spec fn in_key_order<V>(entries: Seq<(u64, V)>, map: Map<u64, V>) -> bool {
    &&& strictly_sorted(entries)
    &&& forall|i: int|
        0 <= i < entries.len() ==> map.contains_key(#[trigger] entries[i].0) && map[entries[i].0]
            == entries[i].1
    &&& forall|k: u64|
        map.contains_key(k) ==> exists|i: int| 0 <= i < entries.len() && #[trigger] entries[i].0 == k
}

proof fn lemma_sorted_lookup<V>(entries: Seq<(u64, V)>, i: int)
    requires
        strictly_sorted(entries),
        0 <= i < entries.len(),
    ensures
        entries_map(entries).contains_key(entries[i].0),
        entries_map(entries)[entries[i].0] == entries[i].1,
{
    let k = entries[i].0;
    let j = choose|j: int| 0 <= j < entries.len() && #[trigger] entries[j].0 == k;
    if j != i {
        if j < i {
            assert(entries[j].0 < entries[i].0);
        } else {
            assert(entries[i].0 < entries[j].0);
        }
    }
}

/// A sorted list is its own key-ordered listing.
proof fn lemma_sorted_in_key_order<V>(entries: Seq<(u64, V)>)
    requires
        strictly_sorted(entries),
    ensures
        in_key_order(entries, entries_map(entries)),
{
    assert forall|i: int| 0 <= i < entries.len() implies entries_map(entries).contains_key(
        #[trigger] entries[i].0,
    ) && entries_map(entries)[entries[i].0] == entries[i].1 by {
        lemma_sorted_lookup(entries, i);
    }
}

/// Every change differs from the base: a changed entry replaces a
/// different (or missing) base entry, and a removal hides a present one.
pub open spec fn posting_changes_are_normal(
    base: Map<u64, PostingEntry>,
    changes: Map<u64, Option<PostingEntry>>,
) -> bool {
    forall|k: u64|
        #[trigger] changes.contains_key(k) ==> match changes[k] {
            Some(entry) => !(base.contains_key(k) && base[k] == entry),
            None => base.contains_key(k),
        }
}

/// The postings of one term: a shared sorted base plus a small persistent
/// change map, with the live entry count. A clone shares the base.
pub struct PostingList {
    base: Arc<Vec<(u64, PostingEntry)>>,
    changes: PostingChanges,
    live_len: usize,
}

impl View for PostingList {
    type V = Map<u64, PostingEntry>;

    closed spec fn view(&self) -> Map<u64, PostingEntry> {
        overlay(entries_map(self.base@), posting_changes(self.changes))
    }
}

impl Clone for PostingList {
    /// A copy that shares the base and the change map's nodes.
    fn clone(&self) -> (r: Self)
        ensures
            r.base_entries() == self.base_entries(),
            r.pending_changes() == self.pending_changes(),
            r@ == self@,
            r.well_formed() == self.well_formed(),
    {
        PostingList {
            base: share(&self.base),
            changes: posting_changes_clone(&self.changes),
            live_len: self.live_len,
        }
    }
}

impl PostingList {
    /// The base is sorted, the live count matches the visible entries, and
    /// the change map is finite.
    pub closed spec fn well_formed(&self) -> bool {
        &&& strictly_sorted(self.base@)
        &&& self@.dom().finite()
        &&& self.live_len == self@.dom().len()
        &&& posting_changes(self.changes).dom().finite()
    }

    /// A well-formed list holds finitely many entries, at most
    /// `usize::MAX`.
    pub proof fn lemma_finite(&self)
        requires
            self.well_formed(),
        ensures
            self@.dom().finite(),
            self@.dom().len() <= usize::MAX,
    {
    }

    /// The shared base entries.
    pub closed spec fn base_entries(&self) -> Seq<(u64, PostingEntry)> {
        self.base@
    }

    /// The pending changes on top of the base.
    pub closed spec fn pending_changes(&self) -> Map<u64, Option<PostingEntry>> {
        posting_changes(self.changes)
    }

    /// A list whose base holds `entries`, which must be sorted by ordinal.
    pub fn from_sorted_entries(entries: Vec<(u64, PostingEntry)>) -> (r: Self)
        requires
            strictly_sorted(entries@),
        ensures
            r.well_formed(),
            r@ == entries_map(entries@),
            r.base_entries() == entries@,
            r.pending_changes().dom().len() == 0,
    {
        proof {
            lemma_sorted_finite(entries@);
        }
        let live_len = entries.len();
        let list = Self { base: Arc::new(entries), changes: posting_changes_new(), live_len };
        proof {
            assert(list@ =~= entries_map(entries@));
        }
        list
    }

    /// A list holding one entry.
    pub fn single(ordinal: u64, entry: PostingEntry) -> (r: Self)
        ensures
            r.well_formed(),
            r@ == Map::<u64, PostingEntry>::empty().insert(ordinal, entry),
    {
        let mut entries = Vec::new();
        entries.push((ordinal, entry));
        let r = Self::from_sorted_entries(entries);
        proof {
            assert(entries_map(seq![(ordinal, entry)]) =~= Map::<u64, PostingEntry>::empty().insert(
                ordinal,
                entry,
            )) by {
                let s = seq![(ordinal, entry)];
                assert(s[0].0 == ordinal);
            }
        }
        r
    }

    /// The number of entries.
    pub fn len(&self) -> (r: usize)
        requires
            self.well_formed(),
        ensures
            r == self@.dom().len(),
    {
        self.live_len
    }

    /// Whether the list is empty.
    pub fn is_empty(&self) -> (r: bool)
        requires
            self.well_formed(),
        ensures
            r == (self@.dom().len() == 0),
    {
        self.live_len == 0
    }

    /// Binary search of the sorted base.
    fn base_entry(&self, ordinal: u64) -> (r: Option<PostingEntry>)
        requires
            strictly_sorted(self.base@),
        ensures
            r == if entries_map(self.base@).contains_key(ordinal) {
                Some(entries_map(self.base@)[ordinal])
            } else {
                None::<PostingEntry>
            },
    {
        let mut low: usize = 0;
        let mut high: usize = self.base.len();
        while low < high
            invariant
                low <= high <= self.base@.len(),
                strictly_sorted(self.base@),
                forall|i: int| 0 <= i < low ==> #[trigger] self.base@[i].0 < ordinal,
                forall|i: int| high <= i < self.base@.len() ==> #[trigger] self.base@[i].0 > ordinal,
            decreases high - low,
        {
            let middle = low + (high - low) / 2;
            let key = self.base[middle].0;
            if key == ordinal {
                proof {
                    lemma_sorted_lookup(self.base@, middle as int);
                }
                return Some(self.base[middle].1);
            } else if key < ordinal {
                low = middle + 1;
            } else {
                high = middle;
            }
        }
        proof {
            if entries_map(self.base@).contains_key(ordinal) {
                let i = choose|i: int| 0 <= i < self.base@.len() && #[trigger] self.base@[i].0 == ordinal;
                assert(self.base@[i].0 == ordinal);
            }
        }
        None
    }

    /// The entries in increasing ordinal order, merging the base with the
    /// changes.
    pub fn iter(&self) -> (r: Vec<(u64, PostingEntry)>)
        requires
            self.well_formed(),
        ensures
            in_key_order(r@, self@),
    {
        let changes = posting_changes_entries(&self.changes);
        let ghost change_map = posting_changes(self.changes);
        let ghost base = self.base@;
        let base_len = self.base.len();
        let change_len = changes.len();
        let mut out: Vec<(u64, PostingEntry)> = Vec::new();
        let mut bi: usize = 0;
        let mut ci: usize = 0;
        while bi < base_len || ci < change_len
            invariant
                base == self.base@,
                change_map == posting_changes(self.changes),
                base_len == base.len(),
                change_len == changes@.len(),
                strictly_sorted(base),
                strictly_sorted(changes@),
                forall|i: int|
                    0 <= i < changes@.len() ==> change_map.contains_key(#[trigger] changes@[i].0)
                        && change_map[changes@[i].0] == changes@[i].1,
                forall|key: u64|
                    change_map.contains_key(key) ==> exists|i: int|
                        0 <= i < changes@.len() && #[trigger] changes@[i].0 == key,
                self@ == overlay(entries_map(base), change_map),
                bi <= base_len,
                ci <= change_len,
                forall|j: int|
                    0 <= j < bi ==> (#[trigger] base[j].0 as int) < merge_front(
                        base,
                        bi as int,
                        changes@,
                        ci as int,
                    ),
                forall|j: int|
                    0 <= j < ci ==> (#[trigger] changes@[j].0 as int) < merge_front(
                        base,
                        bi as int,
                        changes@,
                        ci as int,
                    ),
                strictly_sorted(out@),
                forall|i: int|
                    0 <= i < out@.len() ==> (#[trigger] out@[i].0 as int) < merge_front(
                        base,
                        bi as int,
                        changes@,
                        ci as int,
                    ),
                forall|i: int|
                    0 <= i < out@.len() ==> self@.contains_key(#[trigger] out@[i].0) && self@[out@[i].0]
                        == out@[i].1,
                forall|k: u64|
                    self@.contains_key(k) && (k as int) < merge_front(
                        base,
                        bi as int,
                        changes@,
                        ci as int,
                    ) ==> exists|i: int| 0 <= i < out@.len() && #[trigger] out@[i].0 == k,
            decreases (base_len - bi) + (change_len - ci),
        {
            let ghost before = out@;
            let ghost front = merge_front(base, bi as int, changes@, ci as int);
            let (next_bi, next_ci): (usize, usize);
            if ci >= change_len || (bi < base_len && self.base[bi].0 < changes[ci].0) {
                let key = self.base[bi].0;
                proof {
                    if change_map.contains_key(key) {
                        let j = choose|j: int| 0 <= j < changes@.len() && #[trigger] changes@[j].0 == key;
                        if j > ci {
                            assert(changes@[ci as int].0 < changes@[j].0);
                        }
                    }
                    lemma_sorted_lookup(base, bi as int);
                }
                out.push(self.base[bi]);
                next_bi = bi + 1;
                next_ci = ci;
            } else if bi >= base_len || changes[ci].0 < self.base[bi].0 {
                let key = changes[ci].0;
                if let Some(entry) = changes[ci].1 {
                    out.push((key, entry));
                }
                next_bi = bi;
                next_ci = ci + 1;
            } else {
                let key = changes[ci].0;
                if let Some(entry) = changes[ci].1 {
                    out.push((key, entry));
                }
                next_bi = bi + 1;
                next_ci = ci + 1;
            }
            proof {
                let front2 = merge_front(base, next_bi as int, changes@, next_ci as int);
                assert(front2 > front) by {
                    if next_bi > bi && next_bi < base_len {
                        assert(base[bi as int].0 < base[next_bi as int].0);
                    }
                    if next_ci > ci && next_ci < change_len {
                        assert(changes@[ci as int].0 < changes@[next_ci as int].0);
                    }
                }
                assert forall|j: int| 0 <= j < next_bi implies (#[trigger] base[j].0 as int) <= front by {
                    if j < bi {
                    } else {
                        assert(j == bi);
                    }
                }
                assert forall|j: int| 0 <= j < next_ci implies (#[trigger] changes@[j].0 as int)
                    <= front by {
                    if j < ci {
                    } else {
                        assert(j == ci);
                    }
                }
                assert forall|k: u64|
                    self@.contains_key(k) && (k as int) < front2 implies exists|i: int|
                    0 <= i < out@.len() && #[trigger] out@[i].0 == k by {
                    if (k as int) < front {
                        let i = choose|i: int| 0 <= i < before.len() && #[trigger] before[i].0 == k;
                        assert(out@[i] == before[i]);
                    } else {
                        lemma_merge_advance(
                            base,
                            changes@,
                            change_map,
                            bi as int,
                            ci as int,
                            next_bi as int,
                            next_ci as int,
                            front,
                            k,
                        );
                        assert(out@[out@.len() - 1].0 == k);
                    }
                }
            }
            bi = next_bi;
            ci = next_ci;
        }
        out
    }

    /// Folds the changes into a new sorted base once they reach the
    /// compaction limit of the current base.
    fn compact_if_needed(&mut self)
        requires
            old(self).well_formed(),
        ensures
            final(self).well_formed(),
            final(self)@ == old(self)@,
            old(self).pending_changes().dom().len() < spec_compaction_limit(
                old(self).base_entries().len() as int,
            ) ==> *final(self) == *old(self),
            old(self).pending_changes().dom().len() >= spec_compaction_limit(
                old(self).base_entries().len() as int,
            ) ==> final(self).pending_changes().dom().len() == 0 && in_key_order(
                final(self).base_entries(),
                old(self)@,
            ),
    {
        if posting_changes_len(&self.changes) < compaction_limit(self.base.len()) {
            return;
        }
        let base = self.iter();
        let ghost view = self@;
        proof {
            lemma_key_order_map(base@, view);
            lemma_sorted_finite(base@);
        }
        self.base = Arc::new(base);
        self.changes = posting_changes_new();
        proof {
            assert(self@ =~= view);
        }
    }

    /// Stores `entry` for `ordinal`, replacing any earlier entry. A count
    /// that cannot grow is an error and changes nothing.
    pub fn insert(&mut self, ordinal: u64, entry: PostingEntry) -> (r: Result<()>)
        requires
            old(self).well_formed(),
        ensures
            final(self).well_formed(),
            !old(self)@.contains_key(ordinal) && old(self)@.dom().len() == usize::MAX ==> (r matches Err(
                e,
            ) && e.code == ErrorCode::ResourceExhausted) && *final(self) == *old(self),
            old(self)@.contains_key(ordinal) || old(self)@.dom().len() < usize::MAX ==> r is Ok
                && final(self)@ == old(self)@.insert(ordinal, entry),
    {
        let existed = self.get(ordinal).is_some();
        let live_len = if existed {
            self.live_len
        } else {
            if self.live_len == usize::MAX {
                return Err(Error::resource_exhausted("FTS posting length overflow"));
            }
            self.live_len + 1
        };
        let ghost before = self@;
        if self.base_entry(ordinal) == Some(entry) {
            posting_changes_remove(&mut self.changes, ordinal);
        } else {
            posting_changes_insert(&mut self.changes, ordinal, Some(entry));
        }
        self.live_len = live_len;
        proof {
            assert(self@ =~= before.insert(ordinal, entry));
        }
        self.compact_if_needed();
        Ok(())
    }

    /// Removes the entry for `ordinal`; false when there is none.
    pub fn remove(&mut self, ordinal: u64) -> (r: bool)
        requires
            old(self).well_formed(),
        ensures
            final(self).well_formed(),
            r == old(self)@.contains_key(ordinal),
            final(self)@ == old(self)@.remove(ordinal),
    {
        if self.get(ordinal).is_none() {
            proof {
                assert(old(self)@ =~= old(self)@.remove(ordinal));
            }
            return false;
        }
        let ghost before = self@;
        if self.base_entry(ordinal).is_some() {
            posting_changes_insert(&mut self.changes, ordinal, None);
        } else {
            posting_changes_remove(&mut self.changes, ordinal);
        }
        self.live_len = self.live_len - 1;
        proof {
            assert(self@ =~= before.remove(ordinal));
        }
        self.compact_if_needed();
        true
    }

    /// Whether `self` and `other` share one base allocation.
    pub fn base_ptr_eq(&self, other: &Self) -> (r: bool)
        ensures
            r ==> self.base_entries() == other.base_entries(),
    {
        same_allocation(&self.base, &other.base)
    }

    /// The number of base entries.
    pub fn base_len(&self) -> (r: usize)
        ensures
            r == self.base_entries().len(),
    {
        self.base.len()
    }

    /// The number of pending changes.
    pub fn change_len(&self) -> (r: usize)
        ensures
            r == self.pending_changes().dom().len(),
    {
        posting_changes_len(&self.changes)
    }

    /// Whether the changes are below the compaction limit, the base is
    /// sorted, every change differs from the base, and every entry has a
    /// positive frequency no larger than its document length, which must be
    /// the length `document_lengths` stores for the document.
    pub fn validates(&self, document_lengths: &DocumentLengths) -> (r: bool)
        requires
            self.well_formed(),
        ensures
            r == (self.pending_changes().dom().len() < spec_compaction_limit(
                self.base_entries().len() as int,
            ) && posting_changes_are_normal(entries_map(self.base_entries()), self.pending_changes())
                && forall|k: u64| #[trigger]
                self@.contains_key(k) ==> self@[k].frequency != 0 && self@[k].frequency
                    <= self@[k].document_length && document_lengths@.contains_key(k)
                    && document_lengths@[k] == self@[k].document_length),
    {
        if posting_changes_len(&self.changes) >= compaction_limit(self.base.len()) {
            return false;
        }
        let changes = posting_changes_entries(&self.changes);
        let ghost change_map = posting_changes(self.changes);
        let mut i: usize = 0;
        while i < changes.len()
            invariant
                i <= changes@.len(),
                strictly_sorted(self.base@),
                change_map == posting_changes(self.changes),
                forall|j: int|
                    0 <= j < changes@.len() ==> change_map.contains_key(#[trigger] changes@[j].0)
                        && change_map[changes@[j].0] == changes@[j].1,
                forall|j: int|
                    0 <= j < i ==> match #[trigger] changes@[j].1 {
                        Some(entry) => !(entries_map(self.base@).contains_key(changes@[j].0)
                            && entries_map(self.base@)[changes@[j].0] == entry),
                        None => entries_map(self.base@).contains_key(changes@[j].0),
                    },
            decreases changes@.len() - i,
        {
            let (ordinal, change) = changes[i];
            let consistent = match (self.base_entry(ordinal), change) {
                (None, None) => false,
                (Some(base), Some(changed)) => base != changed,
                (None, Some(_)) | (Some(_), None) => true,
            };
            if !consistent {
                return false;
            }
            i = i + 1;
        }
        proof {
            assert forall|k: u64| #[trigger] change_map.contains_key(k) implies match change_map[k] {
                Some(entry) => !(entries_map(self.base@).contains_key(k) && entries_map(
                    self.base@,
                )[k] == entry),
                None => entries_map(self.base@).contains_key(k),
            } by {
                let j = choose|j: int| 0 <= j < changes@.len() && #[trigger] changes@[j].0 == k;
                assert(changes@[j].0 == k);
            }
        }
        let entries = self.iter();
        let mut n: usize = 0;
        while n < entries.len()
            invariant
                n <= entries@.len(),
                in_key_order(entries@, self@),
                forall|j: int|
                    0 <= j < n ==> (#[trigger] entries@[j].1).frequency != 0
                        && entries@[j].1.frequency <= entries@[j].1.document_length
                        && document_lengths@.contains_key(entries@[j].0)
                        && document_lengths@[entries@[j].0] == entries@[j].1.document_length,
            decreases entries@.len() - n,
        {
            let (ordinal, entry) = entries[n];
            if entry.frequency == 0 || document_lengths.get(ordinal) != Some(entry.document_length)
                || entry.frequency > entry.document_length {
                return false;
            }
            n = n + 1;
        }
        proof {
            assert forall|k: u64| #[trigger] self@.contains_key(k) implies self@[k].frequency != 0
                && self@[k].frequency <= self@[k].document_length && document_lengths@.contains_key(k)
                && document_lengths@[k] == self@[k].document_length by {
                let j = choose|j: int| 0 <= j < entries@.len() && #[trigger] entries@[j].0 == k;
                assert(entries@[j].0 == k);
            }
        }
        true
    }

    /// The entry stored for `ordinal`.
    pub fn get(&self, ordinal: u64) -> (r: Option<PostingEntry>)
        requires
            self.well_formed(),
        ensures
            r == if self@.contains_key(ordinal) {
                Some(self@[ordinal])
            } else {
                None::<PostingEntry>
            },
    {
        match posting_changes_get(&self.changes, ordinal) {
            Some(change) => change,
            None => self.base_entry(ordinal),
        }
    }
}

/// The key at `index`, or one past `u64::MAX` when the list is exhausted.
pub open spec fn next_key<V>(entries: Seq<(u64, V)>, index: int) -> int {
    if 0 <= index < entries.len() {
        entries[index].0 as int
    } else {
        u64::MAX + 1
    }
}

/// The smaller of the next base key and the next change key.
pub open spec fn merge_front(
    base: Seq<(u64, PostingEntry)>,
    bi: int,
    changes: Seq<(u64, Option<PostingEntry>)>,
    ci: int,
) -> int {
    if next_key(base, bi) < next_key(changes, ci) {
        next_key(base, bi)
    } else {
        next_key(changes, ci)
    }
}

/// Keys of the merged view between one front and the next are exactly the
/// key just processed.
proof fn lemma_merge_advance(
    base: Seq<(u64, PostingEntry)>,
    changes: Seq<(u64, Option<PostingEntry>)>,
    change_map: Map<u64, Option<PostingEntry>>,
    bi: int,
    ci: int,
    bi2: int,
    ci2: int,
    processed: int,
    k: u64,
)
    requires
        strictly_sorted(base),
        strictly_sorted(changes),
        forall|i: int|
            0 <= i < changes.len() ==> change_map.contains_key(#[trigger] changes[i].0)
                && change_map[changes[i].0] == changes[i].1,
        forall|key: u64|
            change_map.contains_key(key) ==> exists|i: int|
                0 <= i < changes.len() && #[trigger] changes[i].0 == key,
        0 <= bi <= bi2 <= base.len(),
        0 <= ci <= ci2 <= changes.len(),
        forall|j: int| 0 <= j < bi2 ==> (#[trigger] base[j].0 as int) <= processed,
        forall|j: int| 0 <= j < ci2 ==> (#[trigger] changes[j].0 as int) <= processed,
        overlay(entries_map(base), change_map).contains_key(k),
        merge_front(base, bi, changes, ci) <= k < merge_front(base, bi2, changes, ci2),
        processed == merge_front(base, bi, changes, ci),
    ensures
        k == processed,
{
    if change_map.contains_key(k) {
        let j = choose|j: int| 0 <= j < changes.len() && #[trigger] changes[j].0 == k;
        if j >= ci2 {
            if j > ci2 {
                assert(changes[ci2].0 < changes[j].0);
            }
        }
    } else {
        let j = choose|j: int| 0 <= j < base.len() && #[trigger] base[j].0 == k;
        if j >= bi2 {
            if j > bi2 {
                assert(base[bi2].0 < base[j].0);
            }
        }
    }
}

/// A key-ordered listing of a map is its own entry map.
proof fn lemma_key_order_map<V>(entries: Seq<(u64, V)>, map: Map<u64, V>)
    requires
        in_key_order(entries, map),
    ensures
        entries_map(entries) == map,
{
    assert forall|k: u64| #[trigger] entries_map(entries).contains_key(k) == map.contains_key(k) by {
        if map.contains_key(k) {
            let i = choose|i: int| 0 <= i < entries.len() && #[trigger] entries[i].0 == k;
            assert(entries[i].0 == k);
        }
    }
    assert forall|k: u64| #[trigger] entries_map(entries).contains_key(k) implies entries_map(
        entries,
    )[k] == map[k] by {
        let i = choose|i: int| 0 <= i < entries.len() && #[trigger] entries[i].0 == k;
        lemma_sorted_lookup(entries, i);
    }
    assert(entries_map(entries) =~= map);
}

proof fn lemma_sorted_finite<V>(entries: Seq<(u64, V)>)
    requires
        strictly_sorted(entries),
    ensures
        entries_map(entries).dom().finite(),
        entries_map(entries).dom().len() == entries.len(),
{
    let keys = entries.map_values(|e: (u64, V)| e.0);
    assert(keys.no_duplicates()) by {
        assert forall|i: int, j: int| 0 <= i < keys.len() && 0 <= j < keys.len() && i != j implies keys[i]
            != keys[j] by {
            if i < j {
                assert(entries[i].0 < entries[j].0);
            } else {
                assert(entries[j].0 < entries[i].0);
            }
        }
    }
    keys.unique_seq_to_set();
    assert forall|k: u64| #[trigger] keys.to_set().contains(k) <==> entries_map(entries).dom().contains(
        k,
    ) by {
        if keys.to_set().contains(k) {
            let i = choose|i: int| 0 <= i < keys.len() && keys[i] == k;
            assert(entries[i].0 == k);
        }
        if entries_map(entries).dom().contains(k) {
            let i = choose|i: int| 0 <= i < entries.len() && #[trigger] entries[i].0 == k;
            assert(keys[i] == k);
        }
    }
    assert(keys.to_set() =~= entries_map(entries).dom());
}

} // verus!
