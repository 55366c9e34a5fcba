//! Persistent direct-address storage for FTS document lengths.

use super::overlay::{
    length_changes, length_changes_entries, length_changes_get, length_changes_insert,
    length_changes_clone, length_changes_len, length_changes_new, length_changes_remove, LengthChanges,
};
use crate::error::{Error, ErrorCode, Result};
use crate::index::bitmap::{treemap_contains, treemap_members};
use super::{compaction_limit, same_allocation, share};
use crate::index::limits::spec_compaction_limit;
use crate::index::ordinal_map::{lemma_slot_map_finite, occupied_count, slot_map};
use roaring::RoaringTreemap;
use std::sync::Arc;
use vstd::prelude::*;

verus! {

/// The lengths visible through a base and its change map: a change for an
/// ordinal shadows the base slot, and a `None` change hides it.
pub open spec fn overlay_lengths(base: Seq<Option<u32>>, changes: Map<u64, Option<u32>>) -> Map<
    u64,
    u32,
> {
    Map::new(
        |k: u64|
            if changes.contains_key(k) {
                changes[k] is Some
            } else {
                (k as int) < base.len() && base[k as int] is Some
            },
        |k: u64|
            if changes.contains_key(k) {
                changes[k]->0
            } else {
                base[k as int]->0
            },
    )
}

/// Every change differs from the base: a changed length replaces a
/// different (or missing) base length, and a removal hides a present one.
pub open spec fn changes_are_normal(base: Seq<Option<u32>>, changes: Map<u64, Option<u32>>) -> bool {
    forall|k: u64|
        #[trigger] changes.contains_key(k) ==> match changes[k] {
            Some(length) => !((k as int) < base.len() && base[k as int] == Some(length)),
            None => (k as int) < base.len() && base[k as int] is Some,
        }
}

/// An entry that cannot be stored: its ordinal cannot address a slot, or an
/// earlier entry has the same ordinal.
pub open spec fn bad_entry(entries: Seq<(u64, u32)>, i: int) -> bool {
    (entries[i].0 as int) >= usize::MAX || exists|j: int| 0 <= j < i && entries[j].0 == entries[i].0
}

/// Whether every entry can be stored.
pub open spec fn entries_storable(entries: Seq<(u64, u32)>) -> bool {
    forall|i: int| 0 <= i < entries.len() ==> !#[trigger] bad_entry(entries, i)
}

/// The first entry that cannot be stored.
pub open spec fn first_bad_entry(entries: Seq<(u64, u32)>) -> int {
    choose|i: int|
        0 <= i < entries.len() && #[trigger] bad_entry(entries, i) && forall|j: int|
            0 <= j < i ==> !bad_entry(entries, j)
}

/// The lengths of storable entries, keyed by ordinal.
pub open spec fn entries_lengths(entries: Seq<(u64, u32)>) -> Map<u64, u32> {
    Map::new(
        |k: u64| exists|i: int| 0 <= i < entries.len() && #[trigger] entries[i].0 == k,
        |k: u64| entries[choose|i: int| 0 <= i < entries.len() && #[trigger] entries[i].0 == k].1,
    )
}

/// `entries` lists exactly the pairs of `lengths`, in increasing ordinal
/// order.
pub open spec fn in_ordinal_order(entries: Seq<(u64, u32)>, lengths: Map<u64, u32>) -> bool {
    &&& forall|i: int, j: int| 0 <= i < j < entries.len() ==> entries[i].0 < entries[j].0
    &&& forall|i: int|
        0 <= i < entries.len() ==> lengths.contains_key(#[trigger] entries[i].0)
            && lengths[entries[i].0] == entries[i].1
    &&& forall|k: u64|
        lengths.contains_key(k) ==> exists|i: int| 0 <= i < entries.len() && #[trigger] entries[i].0 == k
}

/// Document lengths keyed by ordinal: a shared contiguous base plus a small
/// persistent change map, with the live document count. A clone shares the
/// base.
pub struct DocumentLengths {
    base: Arc<Vec<Option<u32>>>,
    changes: LengthChanges,
    live_len: usize,
}

impl View for DocumentLengths {
    type V = Map<u64, u32>;

    closed spec fn view(&self) -> Map<u64, u32> {
        overlay_lengths(self.base@, length_changes(self.changes))
    }
}

impl Clone for DocumentLengths {
    /// A copy that shares the base and the change map's nodes.
    fn clone(&self) -> (r: Self)
        ensures
            r.base_slots() == self.base_slots(),
            r.pending_changes() == self.pending_changes(),
            r.spec_len() == self.spec_len(),
            r@ == self@,
            r.well_formed() == self.well_formed(),
    {
        DocumentLengths {
            base: share(&self.base),
            changes: length_changes_clone(&self.changes),
            live_len: self.live_len,
        }
    }
}

impl DocumentLengths {
    /// The live count matches the visible lengths and every change addresses
    /// a slot.
    pub closed spec fn well_formed(&self) -> bool {
        &&& self@.dom().finite()
        &&& self.live_len == self@.dom().len()
        &&& length_changes(self.changes).dom().finite()
        &&& forall|k: u64| #[trigger]
            length_changes(self.changes).contains_key(k) ==> (k as int) < usize::MAX
    }

    /// The shared base slots.
    pub closed spec fn base_slots(&self) -> Seq<Option<u32>> {
        self.base@
    }

    /// The pending changes on top of the base.
    pub closed spec fn pending_changes(&self) -> Map<u64, Option<u32>> {
        length_changes(self.changes)
    }

    /// The live document count.
    pub closed spec fn spec_len(&self) -> nat {
        self.live_len as nat
    }

    /// Whether `self` and `other` share one base allocation.
    pub fn base_ptr_eq(&self, other: &Self) -> (r: bool)
        ensures
            r ==> self.base_slots() == other.base_slots(),
    {
        same_allocation(&self.base, &other.base)
    }

    /// The number of base slots.
    pub fn base_len(&self) -> (r: usize)
        ensures
            r == self.base_slots().len(),
    {
        self.base.len()
    }

    /// The number of pending changes.
    pub fn change_len(&self) -> (r: usize)
        ensures
            r == self.pending_changes().dom().len(),
    {
        length_changes_len(&self.changes)
    }

    /// Builds the lengths from `(ordinal, length)` entries, all in the
    /// shared base. An ordinal that cannot address a slot is a resource
    /// error and a repeated ordinal an internal error; the first such entry
    /// decides.
    pub fn from_sorted_entries(entries: Vec<(u64, u32)>) -> (r: Result<Self>)
        ensures
            entries_storable(entries@) ==> (r matches Ok(lengths) && lengths.well_formed()
                && lengths@ == entries_lengths(entries@) && lengths.pending_changes().dom().len()
                == 0),
            !entries_storable(entries@) ==> (r matches Err(e) && e.code == if (entries@[first_bad_entry(
                entries@,
            )].0 as int) >= usize::MAX {
                ErrorCode::ResourceExhausted
            } else {
                ErrorCode::Internal
            }),
    {
        let mut base: Vec<Option<u32>> = Vec::new();
        let mut live_len: usize = 0;
        let count = entries.len();
        let mut i: usize = 0;
        while i < count
            invariant
                count == entries@.len(),
                i <= count,
                forall|j: int| 0 <= j < i ==> !#[trigger] bad_entry(entries@, j),
                slot_map(base@) == entries_lengths(entries@.subrange(0, i as int)),
                occupied_count(base@) == i,
                live_len == i,
            decreases count - i,
        {
            let (ordinal, length) = entries[i];
            let ghost prefix = entries@.subrange(0, i as int);
            if ordinal as u128 >= usize::MAX as u128 {
                proof {
                    assert(bad_entry(entries@, i as int));
                    lemma_first_bad_entry(entries@, i as int);
                }
                return Err(
                    Error::resource_exhausted("FTS document ordinal exceeds addressable memory"),
                );
            }
            let index = ordinal as usize;
            let required = index + 1;
            while base.len() < required
                invariant
                    slot_map(base@) == entries_lengths(prefix),
                    occupied_count(base@) == i,
                decreases required - base@.len(),
            {
                proof {
                    lemma_push_empty(base@);
                }
                base.push(None);
            }
            if base[index].is_some() {
                proof {
                    assert(slot_map(base@).contains_key(ordinal));
                    let j = choose|j: int| 0 <= j < prefix.len() && #[trigger] prefix[j].0 == ordinal;
                    assert(entries@[j].0 == entries@[i as int].0);
                    assert(bad_entry(entries@, i as int));
                    lemma_first_bad_entry(entries@, i as int);
                }
                return Err(Error::internal("FTS document ordinal is already indexed"));
            }
            proof {
                crate::index::ordinal_map::lemma_count_update_public(base@, index as int, Some(length));
                crate::index::ordinal_map::lemma_count_bound_public(base@);
            }
            base.set(index, Some(length));
            proof {
                assert(!bad_entry(entries@, i as int)) by {
                    if exists|j: int| 0 <= j < i && entries@[j].0 == entries@[i as int].0 {
                        let j = choose|j: int| 0 <= j < i && entries@[j].0 == entries@[i as int].0;
                        assert(prefix[j].0 == ordinal);
                        assert(entries_lengths(prefix).contains_key(ordinal));
                    }
                }
                lemma_entries_lengths_push(entries@, i as int);
                assert(slot_map(base@) =~= entries_lengths(prefix).insert(ordinal, length));
            }
            live_len = live_len + 1;
            i = i + 1;
        }
        let base_len = base.len();
        proof {
            assert(entries@.subrange(0, count as int) =~= entries@);
            lemma_slot_map_finite(base@);
        }
        let changes = length_changes_new();
        let lengths = Self { base: Arc::new(base), changes, live_len };
        proof {
            assert(lengths@ =~= slot_map(base@));
        }
        Ok(lengths)
    }

    fn base_entry(&self, ordinal: u64) -> (r: Option<u32>)
        ensures
            (ordinal as int) < self.base@.len() ==> r == self.base@[ordinal as int],
            (ordinal as int) >= self.base@.len() ==> r is None,
    {
        if ordinal as u128 >= self.base.len() as u128 {
            None
        } else {
            self.base[ordinal as usize]
        }
    }

    /// The length stored for `ordinal`.
    pub fn get(&self, ordinal: u64) -> (r: Option<u32>)
        ensures
            r == if self@.contains_key(ordinal) {
                Some(self@[ordinal])
            } else {
                None::<u32>
            },
    {
        match length_changes_get(&self.changes, ordinal) {
            Some(change) => change,
            None => self.base_entry(ordinal),
        }
    }

    /// A well-formed table holds finitely many lengths, at most `usize::MAX`.
    pub proof fn lemma_finite(&self)
        requires
            self.well_formed(),
        ensures
            self@.dom().finite(),
            self@.dom().len() <= usize::MAX,
    {
    }

    /// Whether a length is stored for `ordinal`.
    pub fn contains_key(&self, ordinal: u64) -> (r: bool)
        ensures
            r == self@.contains_key(ordinal),
    {
        self.get(ordinal).is_some()
    }

    /// Whether no document is stored.
    pub fn is_empty(&self) -> (r: bool)
        requires
            self.well_formed(),
        ensures
            r == (self@.dom().len() == 0),
    {
        self.live_len == 0
    }

    /// Stores `length` for a new document `ordinal`. An ordinal that cannot
    /// address a slot, an ordinal already stored, or a full count is an error
    /// and changes nothing.
    pub fn insert(&mut self, ordinal: u64, length: u32) -> (r: Result<()>)
        requires
            old(self).well_formed(),
        ensures
            final(self).well_formed(),
            (ordinal as int) >= usize::MAX ==> (r matches Err(e) && e.code
                == ErrorCode::ResourceExhausted) && final(self)@ == old(self)@,
            (ordinal as int) < usize::MAX && old(self)@.contains_key(ordinal) ==> (r matches Err(e)
                && e.code == ErrorCode::Internal) && final(self)@ == old(self)@,
            (ordinal as int) < usize::MAX && !old(self)@.contains_key(ordinal) && old(
                self,
            )@.dom().len() == usize::MAX ==> (r matches Err(e) && e.code
                == ErrorCode::ResourceExhausted) && final(self)@ == old(self)@,
            (ordinal as int) < usize::MAX && !old(self)@.contains_key(ordinal) && old(
                self,
            )@.dom().len() < usize::MAX ==> r is Ok && final(self)@ == old(self)@.insert(
                ordinal,
                length,
            ),
            final(self).base_slots() == old(self).base_slots(),
    {
        if ordinal as u128 >= usize::MAX as u128 {
            return Err(
                Error::resource_exhausted("FTS document ordinal exceeds addressable memory"),
            );
        }
        if self.get(ordinal).is_some() {
            return Err(Error::internal("FTS document ordinal is already indexed"));
        }
        if self.live_len == usize::MAX {
            return Err(Error::resource_exhausted("FTS document count overflow"));
        }
        let live_len = self.live_len + 1;
        let ghost before = *self;
        if self.base_entry(ordinal) == Some(length) {
            length_changes_remove(&mut self.changes, ordinal);
        } else {
            length_changes_insert(&mut self.changes, ordinal, Some(length));
        }
        self.live_len = live_len;
        assert(self@ =~= before@.insert(ordinal, length));
        Ok(())
    }

    /// Removes the document `ordinal`, returning its length.
    pub fn remove(&mut self, ordinal: u64) -> (r: Option<u32>)
        requires
            old(self).well_formed(),
        ensures
            final(self).well_formed(),
            r == if old(self)@.contains_key(ordinal) {
                Some(old(self)@[ordinal])
            } else {
                None::<u32>
            },
            final(self)@ == old(self)@.remove(ordinal),
            final(self).base_slots() == old(self).base_slots(),
    {
        let length = match self.get(ordinal) {
            Some(length) => length,
            None => {
                assert(old(self)@ =~= old(self)@.remove(ordinal));
                return None;
            },
        };
        let ghost before = *self;
        let base_len = self.base.len();
        if self.base_entry(ordinal).is_some() {
            length_changes_insert(&mut self.changes, ordinal, None);
        } else {
            length_changes_remove(&mut self.changes, ordinal);
        }
        self.live_len = self.live_len - 1;
        assert(self@ =~= before@.remove(ordinal));
        Some(length)
    }

    /// One past the highest ordinal the base or a change addresses.
    fn span(&self) -> (r: usize)
        requires
            self.well_formed(),
        ensures
            r >= self.base@.len(),
            forall|k: u64| #[trigger]
                length_changes(self.changes).contains_key(k) ==> (k as int) < r,
            forall|k: u64| #[trigger] self@.contains_key(k) ==> (k as int) < r,
    {
        let entries = length_changes_entries(&self.changes);
        let base_len = self.base.len();
        if entries.len() == 0 {
            proof {
                assert forall|k: u64| #[trigger]
                    length_changes(self.changes).contains_key(k) implies (k as int) < base_len by {
                    let i = choose|i: int| 0 <= i < entries@.len() && #[trigger] entries@[i].0 == k;
                }
            }
            return base_len;
        }
        let last = entries[entries.len() - 1].0;
        assert(length_changes(self.changes).contains_key(last));
        let span = last as usize + 1;
        proof {
            assert forall|k: u64| #[trigger]
                length_changes(self.changes).contains_key(k) implies (k as int) < span by {
                let i = choose|i: int| 0 <= i < entries@.len() && #[trigger] entries@[i].0 == k;
                if i < entries@.len() - 1 {
                    assert(entries@[i].0 < entries@[entries@.len() - 1].0);
                }
            }
        }
        if span > base_len {
            span
        } else {
            base_len
        }
    }

    /// The stored (ordinal, length) pairs in increasing ordinal order.
    pub fn iter(&self) -> (r: Vec<(u64, u32)>)
        requires
            self.well_formed(),
        ensures
            in_ordinal_order(r@, self@),
    {
        let span = self.span();
        let mut out: Vec<(u64, u32)> = Vec::new();
        let mut index: usize = 0;
        while index < span
            invariant
                self.well_formed(),
                index <= span,
                forall|k: u64| #[trigger] self@.contains_key(k) ==> (k as int) < span,
                forall|i: int, j: int| 0 <= i < j < out@.len() ==> out@[i].0 < out@[j].0,
                forall|i: int| 0 <= i < out@.len() ==> (out@[i].0 as int) < index,
                forall|i: int|
                    0 <= i < out@.len() ==> self@.contains_key(#[trigger] out@[i].0) && self@[out@[i].0]
                        == out@[i].1,
                forall|k: u64|
                    self@.contains_key(k) && (k as int) < index ==> exists|i: int|
                        0 <= i < out@.len() && #[trigger] out@[i].0 == k,
            decreases span - index,
        {
            let ordinal = index as u64;
            let ghost before = out@;
            if let Some(length) = self.get(ordinal) {
                out.push((ordinal, length));
                proof {
                    assert(out@[out@.len() - 1].0 == ordinal);
                }
            }
            proof {
                assert forall|k: u64| self@.contains_key(k) && (k as int) < index + 1 implies exists|i: int|
                    0 <= i < out@.len() && #[trigger] out@[i].0 == k by {
                    if (k as int) < index {
                        let i = choose|i: int| 0 <= i < before.len() && #[trigger] before[i].0 == k;
                        assert(out@[i] == before[i]);
                    } else {
                        assert(out@[out@.len() - 1].0 == k);
                    }
                }
            }
            index = index + 1;
        }
        out
    }

    /// The stored ordinals in increasing order.
    pub fn keys(&self) -> (r: Vec<u64>)
        requires
            self.well_formed(),
        ensures
            forall|i: int, j: int| 0 <= i < j < r@.len() ==> r@[i] < r@[j],
            forall|k: u64| #[trigger] r@.contains(k) <==> self@.contains_key(k),
    {
        let entries = self.iter();
        let mut keys: Vec<u64> = Vec::new();
        let mut i: usize = 0;
        while i < entries.len()
            invariant
                i <= entries@.len(),
                keys@.len() == i,
                forall|j: int| 0 <= j < i ==> #[trigger] keys@[j] == entries@[j].0,
            decreases entries@.len() - i,
        {
            keys.push(entries[i].0);
            i = i + 1;
        }
        proof {
            assert forall|k: u64| #[trigger] keys@.contains(k) <==> self@.contains_key(k) by {
                if self@.contains_key(k) {
                    let j = choose|j: int| 0 <= j < entries@.len() && #[trigger] entries@[j].0 == k;
                    assert(keys@[j] == k);
                }
                if keys@.contains(k) {
                    let j = choose|j: int| 0 <= j < keys@.len() && keys@[j] == k;
                    assert(entries@[j].0 == k);
                }
            }
        }
        keys
    }

    /// The stored lengths in increasing ordinal order.
    pub fn values(&self) -> (r: Vec<u32>)
        requires
            self.well_formed(),
        ensures
            exists|entries: Seq<(u64, u32)>|
                #[trigger] in_ordinal_order(entries, self@) && entries.len() == r@.len() && forall|
                    i: int,
                | 0 <= i < r@.len() ==> r@[i] == entries[i].1,
    {
        let entries = self.iter();
        let mut values: Vec<u32> = Vec::new();
        let mut i: usize = 0;
        while i < entries.len()
            invariant
                i <= entries@.len(),
                values@.len() == i,
                forall|j: int| 0 <= j < i ==> #[trigger] values@[j] == entries@[j].1,
            decreases entries@.len() - i,
        {
            values.push(entries[i].1);
            i = i + 1;
        }
        proof {
            assert(in_ordinal_order(entries@, self@));
        }
        values
    }

    /// Folds the changes into a new base once they reach the compaction
    /// limit of the current base; the visible lengths never change.
    pub fn finish_changes(&mut self) -> (r: Result<()>)
        requires
            old(self).well_formed(),
        ensures
            r is Ok,
            final(self).well_formed(),
            final(self)@ == old(self)@,
            old(self).pending_changes().dom().len() < spec_compaction_limit(
                old(self).base_slots().len() as int,
            ) ==> *final(self) == *old(self),
            old(self).pending_changes().dom().len() >= spec_compaction_limit(
                old(self).base_slots().len() as int,
            ) ==> final(self).pending_changes().dom().len() == 0 && slot_map(final(self).base_slots())
                == old(self)@ && (final(self).base_slots().len() == 0 || final(self).base_slots().last() is Some),
    {
        let limit = compaction_limit(self.base.len());
        if length_changes_len(&self.changes) < limit {
            return Ok(());
        }
        let span = self.span();
        let entries = length_changes_entries(&self.changes);
        let old_len = self.base.len();
        let ghost changes = length_changes(self.changes);
        let ghost old_base = self.base@;
        let mut base: Vec<Option<u32>> = Vec::new();
        let mut index: usize = 0;
        while index < span
            invariant
                index <= span,
                old_len == old_base.len(),
                old_len <= span,
                old_base == self.base@,
                base@.len() == index,
                forall|i: int|
                    0 <= i < index ==> #[trigger] base@[i] == if i < old_len {
                        old_base[i]
                    } else {
                        None
                    },
            decreases span - index,
        {
            if index < old_len {
                base.push(self.base[index]);
            } else {
                base.push(None);
            }
            index = index + 1;
        }
        let count = entries.len();
        let mut applied: usize = 0;
        while applied < count
            invariant
                count == entries@.len(),
                applied <= count,
                base@.len() == span,
                old_len == old_base.len(),
                old_len <= span,
                forall|k: u64| #[trigger] changes.contains_key(k) ==> (k as int) < span,
                forall|i: int|
                    0 <= i < entries@.len() ==> changes.contains_key(#[trigger] entries@[i].0)
                        && changes[entries@[i].0] == entries@[i].1,
                forall|i: int, j: int| 0 <= i < j < entries@.len() ==> entries@[i].0 < entries@[j].0,
                forall|i: int|
                    0 <= i < span ==> #[trigger] base@[i] == if exists|j: int|
                        0 <= j < applied && entries@[j].0 == i {
                        changes[i as u64]
                    } else if i < old_len {
                        old_base[i]
                    } else {
                        None
                    },
            decreases count - applied,
        {
            let (ordinal, change) = entries[applied];
            let ghost before = base@;
            base.set(ordinal as usize, change);
            proof {
                assert forall|i: int| 0 <= i < span implies #[trigger] base@[i] == if exists|j: int|
                    0 <= j < applied + 1 && entries@[j].0 == i {
                    changes[i as u64]
                } else if i < old_len {
                    old_base[i]
                } else {
                    None
                } by {
                    if i == ordinal as int {
                        assert(entries@[applied as int].0 == i);
                    } else {
                        assert(base@[i] == before[i]);
                        if exists|j: int| 0 <= j < applied + 1 && entries@[j].0 == i {
                            let j = choose|j: int| 0 <= j < applied + 1 && entries@[j].0 == i;
                            assert(j < applied);
                        }
                    }
                }
            }
            applied = applied + 1;
        }
        proof {
            assert forall|i: int| 0 <= i < span implies #[trigger] base@[i] == if changes.contains_key(
                i as u64,
            ) {
                changes[i as u64]
            } else if i < old_len {
                old_base[i]
            } else {
                None
            } by {
                if changes.contains_key(i as u64) {
                    let j = choose|j: int| 0 <= j < entries@.len() && #[trigger] entries@[j].0 == i as u64;
                    assert(entries@[j].0 == i);
                }
                if exists|j: int| 0 <= j < count && entries@[j].0 == i {
                    let j = choose|j: int| 0 <= j < count && entries@[j].0 == i;
                    assert(changes.contains_key(entries@[j].0));
                }
            }
            assert(slot_map(base@) =~= old(self)@);
        }
        while base.len() > 0 && base[base.len() - 1].is_none()
            invariant
                slot_map(base@) == old(self)@,
            decreases base@.len(),
        {
            let ghost before = base@;
            base.pop();
            proof {
                assert(slot_map(base@) =~= slot_map(before));
            }
        }
        let base_len = base.len();
        proof {
            lemma_slot_map_finite(base@);
        }
        self.base = Arc::new(base);
        self.changes = length_changes_new();
        proof {
            assert(self@ =~= old(self)@);
        }
        Ok(())
    }

    /// Whether the lengths fit in `maximum_slots` slots, the changes are
    /// below the compaction limit, address slots below `maximum_slots` and
    /// differ from the base, and every stored ordinal is live.
    pub fn validates(&self, maximum_slots: usize, live: &RoaringTreemap) -> (r: bool)
        requires
            self.well_formed(),
        ensures
            r == (self.base_slots().len() <= maximum_slots && self.pending_changes().dom().len()
                < spec_compaction_limit(self.base_slots().len() as int) && (forall|k: u64|
                #[trigger] self.pending_changes().contains_key(k) ==> (k as int) < maximum_slots)
                && changes_are_normal(self.base_slots(), self.pending_changes()) && (forall|k: u64|
                #[trigger] self@.contains_key(k) ==> treemap_members(*live).contains(k))),
    {
        let base_len = self.base.len();
        if base_len > maximum_slots || length_changes_len(&self.changes) >= compaction_limit(
            base_len,
        ) {
            return false;
        }
        let entries = length_changes_entries(&self.changes);
        let ghost changes = length_changes(self.changes);
        let mut i: usize = 0;
        while i < entries.len()
            invariant
                i <= entries@.len(),
                base_len == self.base@.len(),
                changes == length_changes(self.changes),
                forall|j: int|
                    0 <= j < entries@.len() ==> changes.contains_key(#[trigger] entries@[j].0)
                        && changes[entries@[j].0] == entries@[j].1,
                forall|k: u64|
                    changes.contains_key(k) ==> exists|j: int|
                        0 <= j < entries@.len() && #[trigger] entries@[j].0 == k,
                forall|j: int|
                    0 <= j < i ==> (#[trigger] entries@[j].0 as int) < maximum_slots && match entries@[j].1 {
                        Some(length) => !((entries@[j].0 as int) < self.base@.len()
                            && self.base@[entries@[j].0 as int] == Some(length)),
                        None => (entries@[j].0 as int) < self.base@.len() && self.base@[entries@[j].0 as int] is Some,
                    },
            decreases entries@.len() - i,
        {
            let (ordinal, change) = entries[i];
            if ordinal as u128 >= maximum_slots as u128 {
                return false;
            }
            let stored = self.base_entry(ordinal);
            let consistent = match (stored, change) {
                (None, None) => false,
                (Some(base), Some(changed)) => base != changed,
                (None, Some(_)) | (Some(_), None) => true,
            };
            if !consistent {
                return false;
            }
            i = i + 1;
        }
        proof {
            assert forall|k: u64| #[trigger] changes.contains_key(k) implies (k as int) < maximum_slots
                && match changes[k] {
                Some(length) => !((k as int) < self.base@.len() && self.base@[k as int] == Some(
                    length,
                )),
                None => (k as int) < self.base@.len() && self.base@[k as int] is Some,
            } by {
                let j = choose|j: int| 0 <= j < entries@.len() && #[trigger] entries@[j].0 == k;
                assert(entries@[j].0 == k);
            }
        }
        let present = self.iter();
        let mut n: usize = 0;
        while n < present.len()
            invariant
                n <= present@.len(),
                in_ordinal_order(present@, self@),
                forall|j: int| 0 <= j < n ==> treemap_members(*live).contains(#[trigger] present@[j].0),
            decreases present@.len() - n,
        {
            if !treemap_contains(live, present[n].0) {
                return false;
            }
            n = n + 1;
        }
        proof {
            assert forall|k: u64| #[trigger] self@.contains_key(k) implies treemap_members(
                *live,
            ).contains(k) by {
                let j = choose|j: int| 0 <= j < present@.len() && #[trigger] present@[j].0 == k;
                assert(present@[j].0 == k);
            }
        }
        true
    }

    /// The number of stored documents.
    pub fn len(&self) -> (r: usize)
        requires
            self.well_formed(),
        ensures
            r == self@.dom().len(),
    {
        self.live_len
    }
}

proof fn lemma_first_bad_entry(entries: Seq<(u64, u32)>, i: int)
    requires
        0 <= i < entries.len(),
        bad_entry(entries, i),
        forall|j: int| 0 <= j < i ==> !#[trigger] bad_entry(entries, j),
    ensures
        first_bad_entry(entries) == i,
        !entries_storable(entries),
{
    let f = first_bad_entry(entries);
    assert(0 <= f < entries.len() && bad_entry(entries, f) && forall|j: int|
        0 <= j < f ==> !bad_entry(entries, j));
    if f < i {
        assert(!bad_entry(entries, f));
    }
    if f > i {
        assert(!bad_entry(entries, i));
    }
}

proof fn lemma_push_empty(base: Seq<Option<u32>>)
    ensures
        slot_map(base.push(None)) == slot_map(base),
        occupied_count(base.push(None)) == occupied_count(base),
{
    assert(base.push(None).drop_last() =~= base);
    assert(slot_map(base.push(None)) =~= slot_map(base));
}

proof fn lemma_entries_lengths_push(entries: Seq<(u64, u32)>, i: int)
    requires
        0 <= i < entries.len(),
        forall|j: int| 0 <= j <= i ==> !#[trigger] bad_entry(entries, j),
    ensures
        entries_lengths(entries.subrange(0, i + 1)) == entries_lengths(entries.subrange(0, i)).insert(
            entries[i].0,
            entries[i].1,
        ),
{
    let prefix = entries.subrange(0, i);
    let longer = entries.subrange(0, i + 1);
    let k0 = entries[i].0;
    assert forall|k: u64| #[trigger] entries_lengths(longer).contains_key(k) == entries_lengths(
        prefix,
    ).insert(k0, entries[i].1).contains_key(k) by {
        if k == k0 {
            assert(longer[i].0 == k0);
        } else {
            if entries_lengths(longer).contains_key(k) {
                let j = choose|j: int| 0 <= j < longer.len() && #[trigger] longer[j].0 == k;
                assert(prefix[j].0 == k);
            }
            if entries_lengths(prefix).contains_key(k) {
                let j = choose|j: int| 0 <= j < prefix.len() && #[trigger] prefix[j].0 == k;
                assert(longer[j].0 == k);
            }
        }
    }
    assert forall|k: u64| #[trigger] entries_lengths(longer).contains_key(k) implies entries_lengths(
        longer,
    )[k] == entries_lengths(prefix).insert(k0, entries[i].1)[k] by {
        let j = choose|j: int| 0 <= j < longer.len() && #[trigger] longer[j].0 == k;
        if k == k0 {
            if j < i {
                assert(entries[j].0 == entries[i].0);
                assert(bad_entry(entries, i));
            }
            assert(j == i);
        } else {
            assert(prefix[j].0 == k);
            let j2 = choose|j2: int| 0 <= j2 < prefix.len() && #[trigger] prefix[j2].0 == k;
            if j != j2 {
                let (a, b) = if j < j2 {
                    (j, j2)
                } else {
                    (j2, j)
                };
                assert(entries[a].0 == entries[b].0);
                assert(bad_entry(entries, b));
            }
        }
    }
    assert(entries_lengths(longer) =~= entries_lengths(prefix).insert(k0, entries[i].1));
}

} // verus!
