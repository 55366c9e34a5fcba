//! Direct-address storage for values keyed by stable document ordinals.

use vstd::prelude::*;

verus! {

/// The number of occupied slots.
pub open spec fn occupied_count<T>(slots: Seq<Option<T>>) -> nat
    decreases slots.len(),
{
    if slots.len() == 0 {
        0
    } else {
        occupied_count(slots.drop_last()) + if slots.last() is Some {
            1nat
        } else {
            0nat
        }
    }
}

/// The ordinals of the occupied slots.
pub open spec fn occupied_ordinals<T>(slots: Seq<Option<T>>) -> Set<u64> {
    Set::new(|k: u64| (k as int) < slots.len() && slots[k as int] is Some)
}

/// The values stored at occupied slots, keyed by ordinal.
pub open spec fn slot_map<T>(slots: Seq<Option<T>>) -> Map<u64, T> {
    Map::new(
        |k: u64| (k as int) < slots.len() && slots[k as int] is Some,
        |k: u64| slots[k as int]->0,
    )
}

/// The occupied ordinals in increasing order.
pub open spec fn ordered_ordinals<T>(slots: Seq<Option<T>>) -> Seq<u64>
    decreases slots.len(),
{
    if slots.len() == 0 {
        Seq::empty()
    } else {
        ordered_ordinals(slots.drop_last()) + if slots.last() is Some {
            seq![(slots.len() - 1) as u64]
        } else {
            Seq::empty()
        }
    }
}

/// The map built by inserting `entries` in order; a later entry for the same
/// ordinal replaces an earlier one.
pub open spec fn entries_map<T>(entries: Seq<(u64, T)>) -> Map<u64, T>
    decreases entries.len(),
{
    if entries.len() == 0 {
        Map::empty()
    } else {
        entries_map(entries.drop_last()).insert(entries.last().0, entries.last().1)
    }
}

proof fn lemma_count_push<T>(s: Seq<Option<T>>, x: Option<T>)
    ensures
        occupied_count(s.push(x)) == occupied_count(s) + if x is Some {
            1nat
        } else {
            0nat
        },
        ordered_ordinals(s.push(x)) == ordered_ordinals(s) + if x is Some {
            seq![s.len() as u64]
        } else {
            Seq::<u64>::empty()
        },
{
    assert(s.push(x).drop_last() =~= s);
}

proof fn lemma_count_bound<T>(s: Seq<Option<T>>)
    ensures
        occupied_count(s) <= s.len(),
    decreases s.len(),
{
    if s.len() > 0 {
        lemma_count_bound(s.drop_last());
    }
}

proof fn lemma_count_update<T>(s: Seq<Option<T>>, i: int, x: Option<T>)
    requires
        0 <= i < s.len(),
    ensures
        occupied_count(s.update(i, x)) + (if s[i] is Some {
            1nat
        } else {
            0nat
        }) == occupied_count(s) + (if x is Some {
            1nat
        } else {
            0nat
        }),
    decreases s.len(),
{
    if i == s.len() - 1 {
        assert(s.update(i, x).drop_last() =~= s.drop_last());
    } else {
        lemma_count_update(s.drop_last(), i, x);
        assert(s.update(i, x).drop_last() =~= s.drop_last().update(i, x));
    }
}

proof fn lemma_ordered_ordinals<T>(s: Seq<Option<T>>)
    requires
        s.len() <= u64::MAX + 1,
    ensures
        ordered_ordinals(s).len() == occupied_count(s),
        forall|i: int, j: int|
            0 <= i < j < ordered_ordinals(s).len() ==> ordered_ordinals(s)[i]
                < ordered_ordinals(s)[j],
        forall|i: int|
            0 <= i < ordered_ordinals(s).len() ==> (ordered_ordinals(s)[i] as int) < s.len(),
        forall|k: u64| #[trigger]
            ordered_ordinals(s).contains(k) <==> ((k as int) < s.len() && s[k as int] is Some),
    decreases s.len(),
{
    if s.len() > 0 {
        let p = s.drop_last();
        lemma_ordered_ordinals(p);
        assert forall|k: u64| #[trigger]
            ordered_ordinals(s).contains(k) <==> ((k as int) < s.len() && s[k as int] is Some) by {
            if ordered_ordinals(s).contains(k) {
                let idx = choose|idx: int|
                    0 <= idx < ordered_ordinals(s).len() && ordered_ordinals(s)[idx] == k;
                if idx < ordered_ordinals(p).len() {
                    assert(ordered_ordinals(p).contains(k));
                }
            }
            if (k as int) < s.len() && s[k as int] is Some {
                if (k as int) < p.len() {
                    assert(ordered_ordinals(p).contains(k));
                    let idx = choose|idx: int|
                        0 <= idx < ordered_ordinals(p).len() && ordered_ordinals(p)[idx] == k;
                    assert(ordered_ordinals(s)[idx] == k);
                } else {
                    assert(ordered_ordinals(s)[ordered_ordinals(s).len() - 1] == k);
                }
            }
        }
    }
}

/// Sparse values stored at their ordinal offset. A value for ordinal `k`
/// lives in slot `k`; the recorded length counts the occupied slots.
pub struct OrdinalMap<T> {
    slots: Vec<Option<T>>,
    len: usize,
}

impl<T> View for OrdinalMap<T> {
    type V = Map<u64, T>;

    closed spec fn view(&self) -> Map<u64, T> {
        slot_map(self.slots@)
    }
}

impl<T> OrdinalMap<T> {
    /// The slot vector, one entry per ordinal below `slot_count`.
    pub closed spec fn slots(&self) -> Seq<Option<T>> {
        self.slots@
    }

    /// The recorded number of occupied slots.
    pub closed spec fn recorded_len(&self) -> nat {
        self.len as nat
    }

    /// The recorded length agrees with the slots.
    pub open spec fn well_formed(&self) -> bool {
        self.recorded_len() == occupied_count(self.slots())
    }

    pub proof fn lemma_view(&self)
        ensures
            self@ == slot_map(self.slots()),
    {
    }

    /// An empty map.
    pub fn new() -> (r: Self)
        ensures
            r.slots() == Seq::<Option<T>>::empty(),
            r.recorded_len() == 0,
            r@ == Map::<u64, T>::empty(),
            r.well_formed(),
    {
        let r = Self { slots: Vec::new(), len: 0 };
        assert(r@ =~= Map::<u64, T>::empty());
        r
    }

    /// A map with the given raw slots and recorded length, as a decoded
    /// payload supplies them; `validates` tells whether they agree.
    pub fn from_parts(slots: Vec<Option<T>>, len: usize) -> (r: Self)
        ensures
            r.slots() == slots@,
            r.recorded_len() == len,
    {
        Self { slots, len }
    }

    /// The raw slots and recorded length.
    pub fn into_parts(self) -> (r: (Vec<Option<T>>, usize))
        ensures
            r.0@ == self.slots(),
            r.1 == self.recorded_len(),
    {
        (self.slots, self.len)
    }

    /// Whether no slot is occupied (by the recorded length).
    pub fn is_empty(&self) -> (r: bool)
        ensures
            r == (self.recorded_len() == 0),
    {
        self.len == 0
    }

    /// The recorded number of occupied slots.
    pub fn len(&self) -> (r: usize)
        ensures
            r == self.recorded_len(),
    {
        self.len
    }

    /// The number of slots, occupied or not.
    pub fn slot_count(&self) -> (r: usize)
        ensures
            r == self.slots().len(),
    {
        self.slots.len()
    }

    /// The value stored for `ordinal`.
    pub fn get(&self, ordinal: u64) -> (r: Option<&T>)
        ensures
            self@.contains_key(ordinal) ==> r == Some(&self@[ordinal]),
            !self@.contains_key(ordinal) ==> r is None,
    {
        if ordinal as u128 >= self.slots.len() as u128 {
            return None;
        }
        let index = ordinal as usize;
        match &self.slots[index] {
            Some(value) => Some(value),
            None => None,
        }
    }

    /// A mutable reference to the value stored for `ordinal`.
    pub fn get_mut(&mut self, ordinal: u64) -> (r: Option<&mut T>)
        ensures
            old(self)@.contains_key(ordinal) ==> (r matches Some(v) && *v == old(self)@[ordinal]
                && final(self)@ == old(self)@.insert(ordinal, *final(v))
                && final(self).slots().len() == old(self).slots().len()),
            !old(self)@.contains_key(ordinal) ==> r is None && *final(self) == *old(self),
            final(self).recorded_len() == old(self).recorded_len(),
    {
        if ordinal as u128 >= self.slots.len() as u128 {
            return None;
        }
        let index = ordinal as usize;
        if self.slots[index].is_none() {
            return None;
        }
        let slot = &mut self.slots[index];
        slot.as_mut()
    }

    /// Grows the slot vector with empty slots until `index` is a slot.
    fn ensure_slot(&mut self, index: usize)
        requires
            index < usize::MAX,
        ensures
            final(self).slots().len() == if index < old(self).slots().len() {
                old(self).slots().len() as int
            } else {
                index + 1
            },
            final(self).slots().subrange(0, old(self).slots().len() as int) == old(self).slots(),
            forall|k: int|
                old(self).slots().len() <= k < final(self).slots().len() ==> #[trigger] final(self).slots()[k] is None,
            final(self).recorded_len() == old(self).recorded_len(),
            occupied_count(final(self).slots()) == occupied_count(old(self).slots()),
            final(self)@ == old(self)@,
    {
        while self.slots.len() <= index
            invariant
                index < usize::MAX,
                old(self).slots().len() <= self.slots@.len() <= if index < old(self).slots().len() {
                    old(self).slots().len() as int
                } else {
                    index + 1
                },
                self.slots@.subrange(0, old(self).slots().len() as int) == old(self).slots(),
                forall|k: int|
                    old(self).slots().len() <= k < self.slots@.len() ==> #[trigger] self.slots@[k]
                        is None,
                self.len == old(self).len,
                occupied_count(self.slots@) == occupied_count(old(self).slots()),
                self@ == old(self)@,
            decreases index + 1 - self.slots@.len(),
        {
            proof {
                lemma_count_push(self.slots@, None);
            }
            let ghost before = self.slots@;
            self.slots.push(None);
            assert(self.slots@.subrange(0, old(self).slots().len() as int) =~= old(self).slots());
            assert(self@ =~= old(self)@) by {
                assert(self@ =~= slot_map(before));
            }
        }
    }

    /// Stores `value` for `ordinal`, returning the value it replaces. An
    /// ordinal beyond the address space stores nothing and returns `None`.
    pub fn insert(&mut self, ordinal: u64, value: T) -> (r: Option<T>)
        requires
            ordinal as int != usize::MAX,
        ensures
            (ordinal as int) > usize::MAX ==> r is None && *final(self) == *old(self),
            (ordinal as int) < usize::MAX ==> final(self)@ == old(self)@.insert(ordinal, value),
            (ordinal as int) < usize::MAX && old(self)@.contains_key(ordinal) ==> r == Some(old(self)@[ordinal])
                && final(self).recorded_len() == old(self).recorded_len(),
            (ordinal as int) < usize::MAX && !old(self)@.contains_key(ordinal) ==> r is None && final(self).recorded_len() == if old(self).recorded_len() < usize::MAX {
                old(self).recorded_len() + 1
            } else {
                old(self).recorded_len()
            },
            (ordinal as int) < usize::MAX ==> final(self).slots().len() == if (ordinal as int) < old(self).slots().len() {
                old(self).slots().len() as int
            } else {
                ordinal + 1
            },
            old(self).well_formed() ==> final(self).well_formed(),
    {
        if ordinal as u128 > usize::MAX as u128 {
            return None;
        }
        let index = ordinal as usize;
        self.ensure_slot(index);
        let ghost grown = self.slots@;
        proof {
            lemma_count_update(self.slots@, index as int, Some(value));
            lemma_count_bound(self.slots@);
        }
        let mut replacement = Some(value);
        self.slots.set_and_swap(index, &mut replacement);
        let slot_total = self.slots.len();
        proof {
            lemma_count_bound(self.slots@);
        }
        if replacement.is_none() {
            if self.len < usize::MAX {
                self.len = self.len + 1;
            }
        }
        assert(self@ =~= old(self)@.insert(ordinal, value));
        replacement
    }

    /// Removes the value stored for `ordinal`; the slot stays allocated.
    pub fn remove(&mut self, ordinal: u64) -> (r: Option<T>)
        ensures
            final(self)@ == old(self)@.remove(ordinal),
            old(self)@.contains_key(ordinal) ==> r == Some(old(self)@[ordinal])
                && final(self).recorded_len() == if old(self).recorded_len() > 0 {
                old(self).recorded_len() - 1
            } else {
                0
            },
            !old(self)@.contains_key(ordinal) ==> r is None && final(self).recorded_len()
                == old(self).recorded_len(),
            final(self).slots().len() == old(self).slots().len(),
            old(self).well_formed() ==> final(self).well_formed(),
    {
        if ordinal as u128 >= self.slots.len() as u128 {
            assert(old(self)@ =~= old(self)@.remove(ordinal));
            return None;
        }
        let index = ordinal as usize;
        proof {
            lemma_count_update(self.slots@, index as int, None);
        }
        let mut removed = None;
        self.slots.set_and_swap(index, &mut removed);
        if removed.is_some() {
            if self.len > 0 {
                self.len = self.len - 1;
            }
        }
        assert(self@ =~= old(self)@.remove(ordinal));
        removed
    }

    /// A mutable reference to the value for `ordinal`, storing a default
    /// value first when the slot is empty.
    pub fn get_or_insert_default(&mut self, ordinal: u64) -> (r: Option<&mut T>) where
        T: Default,
        requires
            ordinal as int != usize::MAX,
        ensures
            (ordinal as int) > usize::MAX ==> r is None && *final(self) == *old(self),
            (ordinal as int) < usize::MAX ==> (r matches Some(v) && final(self)@ == old(self)@.insert(ordinal, *final(v)) && (old(
                self,
            )@.contains_key(ordinal) ==> *v == old(self)@[ordinal])),
            (ordinal as int) < usize::MAX && old(self)@.contains_key(ordinal) ==> final(self).recorded_len() == old(self).recorded_len(),
            (ordinal as int) < usize::MAX && !old(self)@.contains_key(ordinal) ==> final(self).recorded_len() == if old(self).recorded_len() < usize::MAX {
                old(self).recorded_len() + 1
            } else {
                old(self).recorded_len()
            },
            old(self).well_formed() ==> final(self).well_formed(),
    {
        if ordinal as u128 > usize::MAX as u128 {
            return None;
        }
        let index = ordinal as usize;
        self.ensure_slot(index);
        if self.slots[index].is_none() {
            proof {
                lemma_count_bound(self.slots@);
            }
            let value = T::default();
            proof {
                lemma_count_update(self.slots@, index as int, Some(value));
            }
            self.slots.set(index, Some(value));
            let slot_total = self.slots.len();
            proof {
                lemma_count_bound(self.slots@);
            }
            if self.len < usize::MAX {
                self.len = self.len + 1;
            }
        }
        proof {
            assert forall|x: T|
                #[trigger] occupied_count(self.slots@.update(index as int, Some(x)))
                    == occupied_count(self.slots@) by {
                lemma_count_update(self.slots@, index as int, Some(x));
            }
        }
        let slot = &mut self.slots[index];
        slot.as_mut()
    }

    /// The occupied ordinals in increasing order.
    pub fn keys(&self) -> (r: Vec<u64>)
        ensures
            r@ == ordered_ordinals(self.slots()),
            forall|i: int, j: int| 0 <= i < j < r@.len() ==> r@[i] < r@[j],
            forall|k: u64| #[trigger] r@.contains(k) <==> self@.contains_key(k),
    {
        let mut keys: Vec<u64> = Vec::new();
        let count = self.slots.len();
        let mut index: usize = 0;
        while index < count
            invariant
                count == self.slots@.len(),
                index <= count,
                keys@ == ordered_ordinals(self.slots@.subrange(0, index as int)),
            decreases count - index,
        {
            proof {
                let prefix = self.slots@.subrange(0, index as int);
                lemma_count_push(prefix, self.slots@[index as int]);
                assert(self.slots@.subrange(0, index + 1) =~= prefix.push(self.slots@[index as int]));
            }
            if self.slots[index].is_some() {
                keys.push(index as u64);
            }
            index = index + 1;
        }
        proof {
            assert(self.slots@.subrange(0, count as int) =~= self.slots@);
            lemma_ordered_ordinals(self.slots@);
        }
        keys
    }

    /// The stored values in ordinal order.
    pub fn values(&self) -> (r: Vec<&T>)
        ensures
            r@.len() == ordered_ordinals(self.slots()).len(),
            forall|i: int|
                0 <= i < r@.len() ==> *#[trigger] r@[i] == self@[ordered_ordinals(self.slots())[i]],
    {
        let mut values: Vec<&T> = Vec::new();
        let count = self.slots.len();
        let mut index: usize = 0;
        while index < count
            invariant
                count == self.slots@.len(),
                index <= count,
                values@.len() == ordered_ordinals(self.slots@.subrange(0, index as int)).len(),
                forall|i: int|
                    0 <= i < values@.len() ==> *#[trigger] values@[i] == self@[ordered_ordinals(
                        self.slots@.subrange(0, index as int),
                    )[i]],
                forall|i: int|
                    0 <= i < ordered_ordinals(self.slots@.subrange(0, index as int)).len()
                        ==> self@.contains_key(
                        #[trigger] ordered_ordinals(self.slots@.subrange(0, index as int))[i],
                    ),
            decreases count - index,
        {
            let ghost prefix = self.slots@.subrange(0, index as int);
            proof {
                lemma_count_push(prefix, self.slots@[index as int]);
                assert(self.slots@.subrange(0, index + 1) =~= prefix.push(self.slots@[index as int]));
            }
            match &self.slots[index] {
                Some(value) => {
                    values.push(value);
                },
                None => {},
            }
            index = index + 1;
        }
        proof {
            assert(self.slots@.subrange(0, count as int) =~= self.slots@);
        }
        values
    }

    /// The stored (ordinal, value) pairs in ordinal order.
    pub fn iter(&self) -> (r: Vec<(u64, &T)>)
        ensures
            r@.len() == ordered_ordinals(self.slots()).len(),
            forall|i: int|
                0 <= i < r@.len() ==> (#[trigger] r@[i]).0 == ordered_ordinals(self.slots())[i]
                    && *r@[i].1 == self@[r@[i].0],
    {
        let mut entries: Vec<(u64, &T)> = Vec::new();
        let count = self.slots.len();
        let mut index: usize = 0;
        while index < count
            invariant
                count == self.slots@.len(),
                index <= count,
                entries@.len() == ordered_ordinals(self.slots@.subrange(0, index as int)).len(),
                forall|i: int|
                    0 <= i < entries@.len() ==> (#[trigger] entries@[i]).0 == ordered_ordinals(
                        self.slots@.subrange(0, index as int),
                    )[i] && *entries@[i].1 == self@[entries@[i].0],
            decreases count - index,
        {
            let ghost prefix = self.slots@.subrange(0, index as int);
            proof {
                lemma_count_push(prefix, self.slots@[index as int]);
                assert(self.slots@.subrange(0, index + 1) =~= prefix.push(self.slots@[index as int]));
            }
            match &self.slots[index] {
                Some(value) => {
                    entries.push((index as u64, value));
                },
                None => {},
            }
            index = index + 1;
        }
        proof {
            assert(self.slots@.subrange(0, count as int) =~= self.slots@);
        }
        entries
    }

    /// Whether the map has at most `maximum_slots` slots and its recorded
    /// length counts exactly the occupied slots.
    pub fn validates(&self, maximum_slots: usize) -> (r: bool)
        ensures
            r == (self.slots().len() <= maximum_slots && self.well_formed()),
    {
        let count = self.slots.len();
        if count > maximum_slots {
            return false;
        }
        let mut occupied: usize = 0;
        let mut index: usize = 0;
        while index < count
            invariant
                count == self.slots@.len(),
                index <= count,
                occupied == occupied_count(self.slots@.subrange(0, index as int)),
            decreases count - index,
        {
            proof {
                let prefix = self.slots@.subrange(0, index as int);
                lemma_count_push(prefix, self.slots@[index as int]);
                lemma_count_bound(prefix);
                assert(self.slots@.subrange(0, index + 1) =~= prefix.push(self.slots@[index as int]));
            }
            if self.slots[index].is_some() {
                occupied = occupied + 1;
            }
            index = index + 1;
        }
        proof {
            assert(self.slots@.subrange(0, count as int) =~= self.slots@);
        }
        occupied == self.len
    }

    /// Builds a map by inserting `entries` in order.
    pub fn from_entries(entries: Vec<(u64, T)>) -> (r: Self)
        requires
            forall|i: int| 0 <= i < entries@.len() ==> ((#[trigger] entries@[i]).0 as int) < usize::MAX,
        ensures
            r@ == entries_map(entries@),
            r.well_formed(),
    {
        let mut map = Self::new();
        let mut remaining = entries;
        let mut reversed: Vec<(u64, T)> = Vec::new();
        while remaining.len() > 0
            invariant
                reversed@.len() + remaining@.len() == entries@.len(),
                remaining@ == entries@.subrange(0, remaining@.len() as int),
                forall|i: int|
                    0 <= i < reversed@.len() ==> #[trigger] reversed@[i] == entries@[entries@.len()
                        - 1 - i],
            decreases remaining@.len(),
        {
            let entry = remaining.pop().unwrap();
            reversed.push(entry);
        }
        let ghost total = entries@.len();
        while reversed.len() > 0
            invariant
                reversed@.len() <= total,
                total == entries@.len(),
                forall|i: int|
                    0 <= i < reversed@.len() ==> #[trigger] reversed@[i] == entries@[total - 1 - i],
                forall|i: int| 0 <= i < entries@.len() ==> ((#[trigger] entries@[i]).0 as int) < usize::MAX,
                map@ == entries_map(entries@.subrange(0, total - reversed@.len())),
                map.well_formed(),
            decreases reversed@.len(),
        {
            let ghost done = total - reversed@.len();
            let (ordinal, value) = reversed.pop().unwrap();
            proof {
                assert(entries@.subrange(0, done + 1).drop_last() =~= entries@.subrange(0, done));
            }
            map.insert(ordinal, value);
        }
        proof {
            assert(entries@.subrange(0, total as int) =~= entries@);
        }
        map
    }

    /// Whether a value is stored for `ordinal`.
    pub fn contains_key(&self, ordinal: u64) -> (r: bool)
        ensures
            r == self@.contains_key(ordinal),
    {
        self.get(ordinal).is_some()
    }
}

/// Updating one slot changes the occupied count by the difference in
/// occupancy.
pub proof fn lemma_count_update_public<T>(s: Seq<Option<T>>, i: int, x: Option<T>)
    requires
        0 <= i < s.len(),
    ensures
        occupied_count(s.update(i, x)) + (if s[i] is Some {
            1nat
        } else {
            0nat
        }) == occupied_count(s) + (if x is Some {
            1nat
        } else {
            0nat
        }),
{
    lemma_count_update(s, i, x);
}

/// The occupied count never exceeds the slot count.
pub proof fn lemma_count_bound_public<T>(s: Seq<Option<T>>)
    ensures
        occupied_count(s) <= s.len(),
{
    lemma_count_bound(s);
}

/// The ordinals of the occupied slots form a finite set of `occupied_count`
/// elements.
pub proof fn lemma_slot_map_finite<T>(slots: Seq<Option<T>>)
    requires
        slots.len() <= u64::MAX + 1,
    ensures
        slot_map(slots).dom().finite(),
        slot_map(slots).dom().len() == occupied_count(slots),
{
    let keys = ordered_ordinals(slots);
    lemma_ordered_ordinals(slots);
    assert(keys.no_duplicates()) by {
        assert forall|i: int, j: int| 0 <= i < keys.len() && 0 <= j < keys.len() && i != j implies keys[i]
            != keys[j] by {
            if i < j {
                assert(keys[i] < keys[j]);
            } else {
                assert(keys[j] < keys[i]);
            }
        }
    }
    keys.unique_seq_to_set();
    assert(keys.to_set() =~= slot_map(slots).dom());
}

/// The recorded length of a well-formed map is the number of stored values.
pub proof fn law_len_counts_values<T>(map: &OrdinalMap<T>)
    requires
        map.well_formed(),
        map.slots().len() <= u64::MAX + 1,
    ensures
        map.recorded_len() == map@.dom().len(),
        map@.dom().finite(),
{
    let s = map.slots();
    let keys = ordered_ordinals(s);
    lemma_ordered_ordinals(s);
    assert(keys.no_duplicates()) by {
        assert forall|i: int, j: int| 0 <= i < keys.len() && 0 <= j < keys.len() && i != j implies keys[i]
            != keys[j] by {
            if i < j {
                assert(keys[i] < keys[j]);
            } else {
                assert(keys[j] < keys[i]);
            }
        }
    }
    keys.unique_seq_to_set();
    assert(keys.to_set() =~= map@.dom());
}

/// Reading back what was written: after `insert(k, v)`, `get(k)` yields `v`
/// and every other ordinal reads as before.
pub proof fn law_insert_then_get<T>(before: Map<u64, T>, ordinal: u64, value: T, other: u64)
    requires
        other != ordinal,
    ensures
        before.insert(ordinal, value).contains_key(ordinal),
        before.insert(ordinal, value)[ordinal] == value,
        before.insert(ordinal, value).contains_key(other) == before.contains_key(other),
        before.contains_key(other) ==> before.insert(ordinal, value)[other] == before[other],
{
}

impl<T> Default for OrdinalMap<T> {
    fn default() -> (r: Self)
        ensures
            r@ == Map::<u64, T>::empty(),
            r.slots().len() == 0,
            r.well_formed(),
    {
        Self::new()
    }
}

} // verus!
