//! Visited-node tracking for bounded graph traversal.

use std::collections::HashSet;
use vstd::prelude::*;

verus! {

broadcast use vstd::std_specs::hash::group_hash_axioms;

/// Largest ordinal space tracked with a dense bitset.
pub const DENSE_VISITED_MAX_SLOTS: usize = 16_777_216;

/// Whether bit `index` of a word-packed bitset is set.
pub open spec fn word_bit(words: Seq<u64>, index: int) -> bool {
    (words[index / 64] >> ((index % 64) as u64)) & 1u64 == 1u64
}

/// The ordinals recorded in a word-packed bitset.
pub open spec fn bitset_members(words: Seq<u64>) -> Set<u64> {
    Set::new(|ordinal: u64| (ordinal as int) < words.len() * 64 && word_bit(words, ordinal as int))
}

/// Tracks graph membership with a compact ordinal bitset when the ordinal
/// space is reasonably dense, and with a hash set otherwise, so that a query
/// never allocates a bitmap sized by a huge or empty ordinal space.
pub enum VisitedSet {
    Dense(Vec<u64>),
    Sparse(HashSet<u64>),
}

impl VisitedSet {
    /// The ordinals recorded so far.
    pub closed spec fn members(&self) -> Set<u64> {
        match self {
            VisitedSet::Dense(words) => bitset_members(words@),
            VisitedSet::Sparse(values) => values@,
        }
    }

    /// Whether `ordinal` can be recorded: a dense set covers its words only.
    pub closed spec fn covers(&self, ordinal: u64) -> bool {
        match self {
            VisitedSet::Dense(words) => (ordinal as int) < words@.len() * 64 && ordinal as int
                <= usize::MAX,
            VisitedSet::Sparse(_) => true,
        }
    }

    /// Whether the set uses the dense bitset.
    pub closed spec fn is_dense(&self) -> bool {
        self is Dense
    }

    /// An empty set for an ordinal space of `slot_count` slots: a bitset of
    /// `ceil(slot_count / 64)` words when `0 < slot_count <= 2^24`, a hash
    /// set with room for `capacity` ordinals otherwise.
    pub fn new(slot_count: usize, capacity: usize) -> (r: Self)
        ensures
            r.members() == Set::<u64>::empty(),
            r.is_dense() == (0 < slot_count <= DENSE_VISITED_MAX_SLOTS),
            0 < slot_count <= DENSE_VISITED_MAX_SLOTS ==> forall|ordinal: u64|
                #[trigger] r.covers(ordinal) == ((ordinal as int) < ((slot_count + 63) / 64) * 64
                    && ordinal as int <= usize::MAX),
            !(0 < slot_count <= DENSE_VISITED_MAX_SLOTS) ==> forall|ordinal: u64| #[trigger]
                r.covers(ordinal),
    {
        if slot_count > 0 && slot_count <= DENSE_VISITED_MAX_SLOTS {
            let count = (slot_count + 63) / 64;
            let mut words: Vec<u64> = Vec::new();
            while words.len() < count
                invariant
                    words@.len() <= count,
                    forall|i: int| 0 <= i < words@.len() ==> #[trigger] words@[i] == 0u64,
                decreases count - words@.len(),
            {
                words.push(0u64);
            }
            let r = VisitedSet::Dense(words);
            assert(r.members() =~= Set::<u64>::empty()) by {
                assert forall|ordinal: u64| !#[trigger] bitset_members(words@).contains(ordinal) by {
                    if (ordinal as int) < words@.len() * 64 {
                        let i = ordinal as int;
                        assert(0 <= i / 64 < words@.len()) by (nonlinear_arith)
                            requires
                                0 <= i < words@.len() * 64,
                        ;
                        let s = (i % 64) as u64;
                        assert((0u64 >> s) & 1u64 == 0u64) by (bit_vector);
                    }
                }
            }
            r
        } else {
            VisitedSet::Sparse(HashSet::with_capacity(capacity))
        }
    }

    /// Records `ordinal`; true when it was not recorded before. An ordinal
    /// outside a dense set's words is not recorded and yields false.
    pub fn insert(&mut self, ordinal: u64) -> (r: bool)
        ensures
            old(self).covers(ordinal) ==> r == !old(self).members().contains(ordinal)
                && final(self).members() == old(self).members().insert(ordinal),
            !old(self).covers(ordinal) ==> !r && final(self).members() == old(self).members(),
            final(self).is_dense() == old(self).is_dense(),
            forall|other: u64| #[trigger] final(self).covers(other) == old(self).covers(other),
    {
        match self {
            VisitedSet::Dense(words) => {
                let count = words.len();
                if ordinal as u128 >= (count as u128) * 64 || ordinal as u128 > usize::MAX as u128 {
                    return false;
                }
                let index = ordinal as usize;
                let word = index / 64;
                let shift = (index % 64) as u64;
                let mask = 1u64 << shift;
                let value = words[word];
                let was_new = value & mask == 0;
                let ghost before = words@;
                words.set(word, value | mask);
                proof {
                    assert(index as int == ordinal as int);
                    assert(words@.len() == before.len());
                    assert(words@[word as int] == value | mask);
                    assert(word as int == (index as int) / 64);
                    assert(shift as int == (index as int) % 64);
                    assert(was_new == !word_bit(before, index as int)) by {
                        assert((value & (1u64 << shift) == 0u64) == ((value >> shift) & 1u64
                            != 1u64)) by (bit_vector)
                            requires
                                shift < 64,
                        ;
                    }
                    assert(bitset_members(words@) =~= bitset_members(before).insert(ordinal)) by {
                        assert forall|other: u64| #[trigger]
                            bitset_members(words@).contains(other) == bitset_members(
                                before,
                            ).insert(ordinal).contains(other) by {
                            if (other as int) < count * 64 {
                                let j = other as int;
                                assert(0 <= j / 64 < count) by (nonlinear_arith)
                                    requires
                                        0 <= j < count * 64,
                                ;
                                let m = (j % 64) as u64;
                                if j / 64 == word as int {
                                    assert(((value | (1u64 << shift)) >> m) & 1u64 == if m
                                        == shift {
                                        1u64
                                    } else {
                                        (value >> m) & 1u64
                                    }) by (bit_vector)
                                        requires
                                            shift < 64,
                                            m < 64,
                                    ;
                                    assert((j == index as int) == (m == shift)) by {
                                        vstd::arithmetic::div_mod::lemma_fundamental_div_mod(j, 64);
                                        vstd::arithmetic::div_mod::lemma_fundamental_div_mod(
                                            index as int,
                                            64,
                                        );
                                    }
                                } else {
                                    assert(words@[j / 64] == before[j / 64]);
                                    assert(other != ordinal);
                                }
                            }
                        }
                    }
                }
                was_new
            },
            VisitedSet::Sparse(values) => values.insert(ordinal),
        }
    }
}

} // verus!
