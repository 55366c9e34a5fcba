//! Stable document ordinals shared by bitmap and posting-list indexes.
//!
//! Each document id gets the next ordinal the first time it is seen and
//! keeps it for the life of the table; removing a document only clears its
//! ordinal from the live bitmap, so reviving it gives the same ordinal back.

use crate::error::{Error, ErrorCode, Result};
use crate::index::bitmap::{
    treemap_contains, treemap_insert, treemap_len, treemap_members, treemap_new, treemap_remove,
    treemap_values,
};
use crate::index::fts::share;
use crate::index::limits::{bitmap_count_to_usize, delta_compaction_limit, spec_compaction_limit};
use crate::text::{compare_text, lemma_text_order, text_less, TextOrder};
use im::{OrdMap, Vector};
use roaring::RoaringTreemap;
use std::sync::Arc;
use vstd::prelude::*;

verus! {

#[verifier::external_type_specification]
#[verifier::external_body]
#[verifier::reject_recursive_types(A)]
pub struct ExVector<A>(Vector<A>);

/// A persistent map from document id to ordinal.
pub type IdOrdinals = OrdMap<String, u64>;

/// A persistent vector of document ids, indexed by ordinal.
pub type OrdinalIds = Vector<String>;

/// What an id-to-ordinal map holds, keyed by the ids' characters.
pub uninterp spec fn id_ordinals(map: IdOrdinals) -> Map<Seq<char>, u64>;

/// The ids a vector holds, in order, by their characters.
pub uninterp spec fn ordinal_ids(ids: OrdinalIds) -> Seq<Seq<char>>;

/// `OrdMap::new`: an empty map.
#[verifier::external_body]
fn id_ordinals_new() -> (r: IdOrdinals)
    ensures
        id_ordinals(r) =~= Map::empty(),
{
    OrdMap::new()
}

/// `OrdMap::clone`: a map with the same pairs (sharing its nodes).
#[verifier::external_body]
fn id_ordinals_clone(map: &IdOrdinals) -> (r: IdOrdinals)
    ensures
        id_ordinals(r) == id_ordinals(*map),
{
    map.clone()
}

/// `OrdMap::get`: the ordinal of `id` (a `String` key is found by its `str`).
#[verifier::external_body]
fn id_ordinals_get(map: &IdOrdinals, id: &str) -> (r: Option<u64>)
    ensures
        id_ordinals(*map).contains_key(id@) ==> r == Some(id_ordinals(*map)[id@]),
        !id_ordinals(*map).contains_key(id@) ==> r is None,
{
    map.get(id).copied()
}

/// `OrdMap::insert`: maps `id` to `ordinal`, replacing any earlier pair.
#[verifier::external_body]
fn id_ordinals_insert(map: &mut IdOrdinals, id: String, ordinal: u64)
    ensures
        id_ordinals(*final(map)) == id_ordinals(*old(map)).insert(id@, ordinal),
{
    map.insert(id, ordinal);
}

/// `OrdMap::len`: the number of pairs.
#[verifier::external_body]
fn id_ordinals_len(map: &IdOrdinals) -> (r: usize)
    ensures
        r == id_ordinals(*map).dom().len(),
{
    map.len()
}

/// `OrdMap::iter`: the pairs in increasing key order. `String` orders by its
/// UTF-8 bytes, which is the order of its characters' code points.
#[verifier::external_body]
fn id_ordinals_entries(map: &IdOrdinals) -> (r: Vec<(String, u64)>)
    ensures
        r@.len() == id_ordinals(*map).dom().len(),
        forall|i: int, j: int| 0 <= i < j < r@.len() ==> text_less(r@[i].0@, r@[j].0@),
        forall|i: int|
            0 <= i < r@.len() ==> id_ordinals(*map).contains_key(#[trigger] r@[i].0@)
                && id_ordinals(*map)[r@[i].0@] == r@[i].1,
        forall|k: Seq<char>|
            id_ordinals(*map).contains_key(k) ==> exists|i: int|
                0 <= i < r@.len() && #[trigger] r@[i].0@ == k,
{
    map.iter().map(|(id, ordinal)| (id.clone(), *ordinal)).collect()
}

/// `Vector::new`: an empty vector.
#[verifier::external_body]
fn ordinal_ids_new() -> (r: OrdinalIds)
    ensures
        ordinal_ids(r) =~= Seq::empty(),
{
    Vector::new()
}

/// `Vector::clone`: a vector with the same ids (sharing its chunks).
#[verifier::external_body]
fn ordinal_ids_clone(ids: &OrdinalIds) -> (r: OrdinalIds)
    ensures
        ordinal_ids(r) == ordinal_ids(*ids),
{
    ids.clone()
}

/// `Vector::len`: the number of ids.
#[verifier::external_body]
fn ordinal_ids_len(ids: &OrdinalIds) -> (r: usize)
    ensures
        r == ordinal_ids(*ids).len(),
{
    ids.len()
}

/// `Vector::get`: the id at `index`, if there is one.
#[verifier::external_body]
fn ordinal_ids_get(ids: &OrdinalIds, index: usize) -> (r: Option<&String>)
    ensures
        r is Some == (index < ordinal_ids(*ids).len()),
        r matches Some(id) ==> id@ == ordinal_ids(*ids)[index as int],
{
    ids.get(index)
}

/// `Vector::push_back`: appends `id`.
#[verifier::external_body]
fn ordinal_ids_push(ids: &mut OrdinalIds, id: String)
    requires
        ordinal_ids(*old(ids)).len() < usize::MAX,
    ensures
        ordinal_ids(*final(ids)) == ordinal_ids(*old(ids)).push(id@),
{
    ids.push_back(id);
}

/// `Vector::ptr_eq`: whether two vectors refer to the same chunks in memory,
/// which hold the same ids.
#[verifier::external_body]
fn ordinal_ids_ptr_eq(a: &OrdinalIds, b: &OrdinalIds) -> (r: bool)
    ensures
        r ==> ordinal_ids(*a) == ordinal_ids(*b),
{
    a.ptr_eq(b)
}

/// `Arc::make_mut` on a shared bitmap: the bitmap behind the handle, cloned
/// first when another handle shares it (a `RoaringTreemap` clone holds the
/// same members); the handle then holds the updated bitmap.
#[verifier::external_body]
fn make_mut(handle: &mut Arc<RoaringTreemap>) -> (r: &mut RoaringTreemap)
    ensures
        treemap_members(*r) == treemap_members(**old(handle)),
        **final(handle) == *final(r),
{
    Arc::make_mut(handle)
}

/// Ids and ordinals that are each other's inverse: the id at position `i`
/// has ordinal `i`, and every mapped ordinal points back at its id.
pub open spec fn table_consistent(ids: Seq<Seq<char>>, ordinals: Map<Seq<char>, u64>) -> bool {
    &&& ordinals.dom().finite()
    &&& ordinals.dom().len() == ids.len()
    &&& forall|i: int|
        0 <= i < ids.len() ==> ordinals.contains_key(#[trigger] ids[i]) && ordinals[ids[i]] == i
    &&& forall|k: Seq<char>|
        #[trigger] ordinals.contains_key(k) ==> (ordinals[k] as int) < ids.len() && ids[ordinals[k]
            as int] == k
}

/// The ordinals of the listed ids.
pub open spec fn listed_ordinals(ordinals: Map<Seq<char>, u64>, ids: Seq<String>) -> Set<u64> {
    Set::new(|o: u64| exists|i: int| 0 <= i < ids.len() && ordinals[#[trigger] ids[i]@] == o)
}

/// The ids in first-occurrence order: each id once, where it first appears.
pub open spec fn first_occurrences(ids: Seq<Seq<char>>) -> Seq<Seq<char>>
    decreases ids.len(),
{
    if ids.len() == 0 {
        Seq::empty()
    } else {
        let earlier = first_occurrences(ids.drop_last());
        if earlier.contains(ids.last()) {
            earlier
        } else {
            earlier.push(ids.last())
        }
    }
}

/// Document ids and their stable ordinals, with the live ordinals. A clone
/// shares the persistent maps and the live bitmap.
pub struct OrdinalTable {
    by_id: IdOrdinals,
    by_ordinal: OrdinalIds,
    live: Arc<RoaringTreemap>,
}

impl Clone for OrdinalTable {
    /// A copy that shares the persistent structures.
    fn clone(&self) -> (r: Self)
        ensures
            r.ids() == self.ids(),
            r.ordinals() == self.ordinals(),
            r.live_set() == self.live_set(),
    {
        OrdinalTable {
            by_id: id_ordinals_clone(&self.by_id),
            by_ordinal: ordinal_ids_clone(&self.by_ordinal),
            live: share(&self.live),
        }
    }
}

impl OrdinalTable {
    /// The ids by ordinal.
    pub closed spec fn ids(&self) -> Seq<Seq<char>> {
        ordinal_ids(self.by_ordinal)
    }

    /// The ordinal of each id.
    pub closed spec fn ordinals(&self) -> Map<Seq<char>, u64> {
        id_ordinals(self.by_id)
    }

    /// The live ordinals.
    pub closed spec fn live_set(&self) -> Set<u64> {
        treemap_members(*self.live)
    }

    /// Ids and ordinals are inverse and every live ordinal is allocated.
    pub open spec fn well_formed(&self) -> bool {
        &&& table_consistent(self.ids(), self.ordinals())
        &&& forall|o: u64| #[trigger] self.live_set().contains(o) ==> (o as int) < self.ids().len()
    }

    /// An empty table.
    pub fn new() -> (r: Self)
        ensures
            r.well_formed(),
            r.ids().len() == 0,
            r.live_set() =~= Set::empty(),
    {
        let table = OrdinalTable {
            by_id: id_ordinals_new(),
            by_ordinal: ordinal_ids_new(),
            live: Arc::new(treemap_new()),
        };
        proof {
            assert(table.ordinals().dom() =~= Set::empty());
        }
        table
    }

    /// A table giving each id its ordinal in first-occurrence order, all
    /// live.
    pub fn build(ids: &[String]) -> (r: Result<Self>)
        ensures
            r matches Ok(table) && table.well_formed() && table.ids() == first_occurrences(
                ids@.map_values(|id: String| id@),
            ) && table.live_set() == Set::new(|o: u64| (o as int) < table.ids().len()),
    {
        let mut table = Self::new();
        let mut i: usize = 0;
        let ghost views = ids@.map_values(|id: String| id@);
        proof {
            assert(views.subrange(0, 0) =~= Seq::empty());
        }
        while i < ids.len()
            invariant
                i <= ids@.len(),
                views == ids@.map_values(|id: String| id@),
                table.well_formed(),
                table.ids() == first_occurrences(views.subrange(0, i as int)),
                table.ids().len() <= i,
                table.live_set() == Set::new(|o: u64| (o as int) < table.ids().len()),
            decreases ids@.len() - i,
        {
            let ghost before = table.ids();
            let ghost ordinals_before = table.ordinals();
            proof {
                assert(views.subrange(0, i + 1).drop_last() =~= views.subrange(0, i as int));
                assert(views.subrange(0, i + 1).last() == ids@[i as int]@);
            }
            let ordinal = match table.ensure_live(ids[i].as_str()) {
                Ok(ordinal) => ordinal,
                Err(error) => {
                    return Err(error);
                },
            };
            proof {
                let v = ids@[i as int]@;
                if ordinals_before.contains_key(v) {
                    assert(before[ordinals_before[v] as int] == v);
                    assert(before.contains(v));
                } else {
                    assert(!before.contains(v)) by {
                        if before.contains(v) {
                            let j = choose|j: int| 0 <= j < before.len() && before[j] == v;
                            assert(ordinals_before.contains_key(before[j]));
                        }
                    }
                }
                assert(table.live_set() =~= Set::new(|o: u64| (o as int) < table.ids().len()));
            }
            i = i + 1;
        }
        proof {
            assert(views.subrange(0, ids@.len() as int) =~= views);
        }
        Ok(table)
    }

    /// The ordinal of `id`, allocating the next one for a new id; either way
    /// the ordinal becomes live.
    pub fn ensure_live(&mut self, id: &str) -> (r: Result<u64>)
        requires
            old(self).well_formed(),
            old(self).ids().len() < usize::MAX,
        ensures
            final(self).well_formed(),
            old(self).ordinals().contains_key(id@) ==> r == Ok::<u64, Error>(
                old(self).ordinals()[id@],
            ) && final(self).ids() == old(self).ids() && final(self).ordinals() == old(
                self,
            ).ordinals() && final(self).live_set() == old(self).live_set().insert(
                old(self).ordinals()[id@],
            ),
            !old(self).ordinals().contains_key(id@) ==> r == Ok::<u64, Error>(
                old(self).ids().len() as u64,
            ) && final(self).ids() == old(self).ids().push(id@) && final(self).ordinals() == old(
                self,
            ).ordinals().insert(id@, old(self).ids().len() as u64) && final(self).live_set()
                == old(self).live_set().insert(old(self).ids().len() as u64),
    {
        if let Some(ordinal) = id_ordinals_get(&self.by_id, id) {
            if !treemap_contains(&self.live, ordinal) {
                let live = make_mut(&mut self.live);
                treemap_insert(live, ordinal);
            } else {
                proof {
                    assert(self.live_set().insert(ordinal) =~= self.live_set());
                }
            }
            proof {
                assert(self.live_set() == old(self).live_set().insert(ordinal));
                assert forall|o: u64| #[trigger] self.live_set().contains(o) implies (o as int)
                    < self.ids().len() by {
                    if o != ordinal {
                        assert(old(self).live_set().contains(o));
                    }
                }
            }
            return Ok(ordinal);
        }
        let ghost ids_before = self.ids();
        let ghost ordinals_before = self.ordinals();
        let ordinal = ordinal_ids_len(&self.by_ordinal) as u64;
        id_ordinals_insert(&mut self.by_id, id.to_owned(), ordinal);
        ordinal_ids_push(&mut self.by_ordinal, id.to_owned());
        let live = make_mut(&mut self.live);
        treemap_insert(live, ordinal);
        proof {
            assert(self.live_set() == old(self).live_set().insert(ordinal));
            assert forall|o: u64| #[trigger] self.live_set().contains(o) implies (o as int)
                < self.ids().len() by {
                if o != ordinal {
                    assert(old(self).live_set().contains(o));
                }
            }
            let ids = self.ids();
            let ordinals = self.ordinals();
            assert(ordinals.dom() =~= ordinals_before.dom().insert(id@));
            assert forall|i: int| 0 <= i < ids.len() implies ordinals.contains_key(
                #[trigger] ids[i],
            ) && ordinals[ids[i]] == i by {
                if i < ids_before.len() {
                    assert(ids[i] == ids_before[i]);
                    assert(ordinals_before.contains_key(ids_before[i]));
                }
            }
            assert forall|k: Seq<char>| #[trigger] ordinals.contains_key(k) implies (ordinals[k]
                as int) < ids.len() && ids[ordinals[k] as int] == k by {
                if k != id@ {
                    assert(ordinals_before.contains_key(k));
                }
            }
        }
        Ok(ordinal)
    }

    /// Clears `id`'s ordinal from the live bitmap; the ordinal stays
    /// allocated to `id`.
    pub fn remove_live(&mut self, id: &str)
        requires
            old(self).well_formed(),
        ensures
            final(self).well_formed(),
            final(self).ids() == old(self).ids(),
            final(self).ordinals() == old(self).ordinals(),
            old(self).ordinals().contains_key(id@) ==> final(self).live_set() == old(
                self,
            ).live_set().remove(old(self).ordinals()[id@]),
            !old(self).ordinals().contains_key(id@) ==> final(self).live_set() == old(
                self,
            ).live_set(),
    {
        if let Some(ordinal) = id_ordinals_get(&self.by_id, id) {
            let live = make_mut(&mut self.live);
            treemap_remove(live, ordinal);
            proof {
                assert(self.live_set() == old(self).live_set().remove(ordinal));
                assert forall|o: u64| #[trigger] self.live_set().contains(o) implies (o as int)
                    < self.ids().len() by {
                    assert(old(self).live_set().contains(o));
                }
            }
        }
    }

    /// The ordinal of `id`.
    pub fn ordinal(&self, id: &str) -> (r: Option<u64>)
        ensures
            r == if self.ordinals().contains_key(id@) {
                Some(self.ordinals()[id@])
            } else {
                None::<u64>
            },
    {
        id_ordinals_get(&self.by_id, id)
    }

    /// The id holding `ordinal`.
    pub fn id(&self, ordinal: u64) -> (r: Option<&str>)
        ensures
            r is Some == ((ordinal as int) < self.ids().len()),
            r matches Some(id) ==> id@ == self.ids()[ordinal as int],
    {
        let count = ordinal_ids_len(&self.by_ordinal);
        if ordinal >= count as u64 {
            return None;
        }
        match ordinal_ids_get(&self.by_ordinal, ordinal as usize) {
            Some(id) => Some(id.as_str()),
            None => None,
        }
    }

    /// The live ordinals.
    pub fn live(&self) -> (r: &RoaringTreemap)
        ensures
            treemap_members(*r) == self.live_set(),
    {
        &self.live
    }

    /// The number of ordinals ever allocated.
    pub fn allocated_len(&self) -> (r: usize)
        ensures
            r == self.ids().len(),
    {
        ordinal_ids_len(&self.by_ordinal)
    }

    /// Whether the ids and ordinals are inverse and the live ordinals are
    /// exactly those of `live_ids`, every one of which has an ordinal.
    pub fn validates(&self, live_ids: &[String]) -> (r: bool)
        ensures
            r == (table_consistent(self.ids(), self.ordinals()) && (forall|i: int|
                0 <= i < live_ids@.len() ==> self.ordinals().contains_key(#[trigger] live_ids@[i]@))
                && self.live_set() == listed_ordinals(self.ordinals(), live_ids@)),
            r ==> self.well_formed(),
    {
        let ghost ids = self.ids();
        let ghost ordinals = self.ordinals();
        let count = ordinal_ids_len(&self.by_ordinal);
        let entries = id_ordinals_entries(&self.by_id);
        proof {
            lemma_keys_listed_finite(entries@, ordinals);
        }
        if entries.len() != count {
            return false;
        }
        let mut e: usize = 0;
        while e < entries.len()
            invariant
                e <= entries@.len(),
                ids == self.ids(),
                ordinals == self.ordinals(),
                forall|i: int|
                    0 <= i < entries@.len() ==> ordinals.contains_key(#[trigger] entries@[i].0@)
                        && ordinals[entries@[i].0@] == entries@[i].1,
                forall|j: int|
                    0 <= j < e ==> (#[trigger] entries@[j].1 as int) < ids.len() && ids[entries@[j].1
                        as int] == entries@[j].0@,
            decreases entries@.len() - e,
        {
            let consistent = match self.id(entries[e].1) {
                Some(found) => compare_text(found, entries[e].0.as_str()) == TextOrder::Equal,
                None => false,
            };
            if !consistent {
                proof {
                    assert(ordinals.contains_key(entries@[e as int].0@));
                }
                return false;
            }
            e = e + 1;
        }
        let mut o: usize = 0;
        while o < count
            invariant
                o <= count,
                count == ids.len(),
                ids == self.ids(),
                ordinals == self.ordinals(),
                forall|j: int|
                    0 <= j < o ==> ordinals.contains_key(#[trigger] ids[j]) && ordinals[ids[j]] == j,
            decreases count - o,
        {
            let found = match ordinal_ids_get(&self.by_ordinal, o) {
                Some(id) => id_ordinals_get(&self.by_id, id.as_str()),
                None => None,
            };
            if found != Some(o as u64) {
                return false;
            }
            o = o + 1;
        }
        proof {
            assert forall|k: Seq<char>| #[trigger] ordinals.contains_key(k) implies (ordinals[k]
                as int) < ids.len() && ids[ordinals[k] as int] == k by {
                let j = choose|j: int| 0 <= j < entries@.len() && #[trigger] entries@[j].0@ == k;
                assert(entries@[j].0@ == k);
            }
        }
        let mut expected = treemap_new();
        let mut l: usize = 0;
        while l < live_ids.len()
            invariant
                l <= live_ids@.len(),
                ordinals == self.ordinals(),
                forall|j: int| 0 <= j < l ==> ordinals.contains_key(#[trigger] live_ids@[j]@),
                treemap_members(expected) == Set::new(
                    |v: u64| exists|j: int| 0 <= j < l && ordinals[#[trigger] live_ids@[j]@] == v,
                ),
            decreases live_ids@.len() - l,
        {
            let ghost before = treemap_members(expected);
            match self.ordinal(live_ids[l].as_str()) {
                Some(ordinal) => {
                    treemap_insert(&mut expected, ordinal);
                },
                None => {
                    return false;
                },
            }
            proof {
                assert(treemap_members(expected) =~= Set::new(
                    |v: u64| exists|j: int| 0 <= j < l + 1 && ordinals[#[trigger] live_ids@[j]@] == v,
                )) by {
                    assert forall|v: u64| #[trigger] treemap_members(expected).contains(v) implies exists|
                        j: int,
                    | 0 <= j < l + 1 && ordinals[#[trigger] live_ids@[j]@] == v by {
                        if v != ordinals[live_ids@[l as int]@] {
                            assert(before.contains(v));
                        }
                    }
                }
            }
            l = l + 1;
        }
        proof {
            assert(treemap_members(expected) =~= listed_ordinals(ordinals, live_ids@));
        }
        let live_values = treemap_values(&self.live);
        let mut a: usize = 0;
        while a < live_values.len()
            invariant
                a <= live_values@.len(),
                ordinals == self.ordinals(),
                treemap_members(expected) == listed_ordinals(ordinals, live_ids@),
                forall|i: int|
                    0 <= i < live_values@.len() ==> self.live_set().contains(#[trigger] live_values@[i]),
                forall|v: u64| self.live_set().contains(v) ==> live_values@.contains(v),
                forall|j: int| 0 <= j < a ==> treemap_members(expected).contains(#[trigger] live_values@[j]),
            decreases live_values@.len() - a,
        {
            if !treemap_contains(&expected, live_values[a]) {
                proof {
                    assert(self.live_set().contains(live_values@[a as int]));
                }
                return false;
            }
            a = a + 1;
        }
        let expected_values = treemap_values(&expected);
        let mut b: usize = 0;
        while b < expected_values.len()
            invariant
                b <= expected_values@.len(),
                ordinals == self.ordinals(),
                treemap_members(expected) == listed_ordinals(ordinals, live_ids@),
                forall|i: int|
                    0 <= i < expected_values@.len() ==> treemap_members(expected).contains(
                        #[trigger] expected_values@[i],
                    ),
                forall|v: u64| treemap_members(expected).contains(v) ==> expected_values@.contains(v),
                forall|j: int| 0 <= j < b ==> self.live_set().contains(#[trigger] expected_values@[j]),
            decreases expected_values@.len() - b,
        {
            if !treemap_contains(&self.live, expected_values[b]) {
                proof {
                    assert(treemap_members(expected).contains(expected_values@[b as int]));
                }
                return false;
            }
            b = b + 1;
        }
        proof {
            assert forall|v: u64| self.live_set().contains(v) == treemap_members(expected).contains(v) by {
                if self.live_set().contains(v) {
                    let i = choose|i: int| 0 <= i < live_values@.len() && live_values@[i] == v;
                    assert(live_values@[i] == v);
                }
                if treemap_members(expected).contains(v) {
                    let i = choose|i: int| 0 <= i < expected_values@.len() && expected_values@[i] == v;
                    assert(expected_values@[i] == v);
                }
            }
            assert(self.live_set() =~= listed_ordinals(ordinals, live_ids@));
            assert forall|v: u64| #[trigger] self.live_set().contains(v) implies (v as int) < ids.len() by {
                let j = choose|j: int| 0 <= j < live_ids@.len() && ordinals[#[trigger] live_ids@[j]@] == v;
                assert(ordinals.contains_key(live_ids@[j]@));
            }
        }
        true
    }

    /// Whether retired ordinals (allocated but not live) have reached the
    /// compaction limit of the live count.
    pub fn should_compact(&self) -> (r: bool)
        ensures
            ({
                let live = if self.live_set().len() <= usize::MAX {
                    self.live_set().len() as int
                } else {
                    usize::MAX as int
                };
                let retired = if self.ordinals().dom().len() >= live {
                    self.ordinals().dom().len() - live
                } else {
                    0
                };
                r == (retired >= spec_compaction_limit(live))
            }),
    {
        let live = bitmap_count_to_usize(treemap_len(&self.live));
        let allocated = id_ordinals_len(&self.by_id);
        let retired = if allocated >= live {
            allocated - live
        } else {
            0
        };
        retired >= delta_compaction_limit(live)
    }

    /// Whether two tables share the same id vector in memory.
    pub fn ids_ptr_eq(&self, other: &Self) -> (r: bool)
        ensures
            r ==> self.ids() == other.ids(),
    {
        ordinal_ids_ptr_eq(&self.by_ordinal, &other.by_ordinal)
    }
}

/// What a table holds: the ids by ordinal, the ordinal of each id and the
/// live ordinals.
pub struct TableModel {
    pub ids: Seq<Seq<char>>,
    pub ordinals: Map<Seq<char>, u64>,
    pub live: Set<u64>,
}

/// The table after one document change `(id, existed, exists)`: a document
/// that exists is made live (a new id gets the next ordinal); one that
/// existed and is gone loses its live ordinal; anything else leaves the
/// table as it was.
pub open spec fn membership_step(m: TableModel, change: (Seq<char>, bool, bool)) -> TableModel {
    let id = change.0;
    if change.2 {
        if m.ordinals.contains_key(id) {
            TableModel { ids: m.ids, ordinals: m.ordinals, live: m.live.insert(m.ordinals[id]) }
        } else {
            TableModel {
                ids: m.ids.push(id),
                ordinals: m.ordinals.insert(id, m.ids.len() as u64),
                live: m.live.insert(m.ids.len() as u64),
            }
        }
    } else if change.1 && m.ordinals.contains_key(id) {
        TableModel { ids: m.ids, ordinals: m.ordinals, live: m.live.remove(m.ordinals[id]) }
    } else {
        m
    }
}

/// The table after `changes`, applied in order.
pub open spec fn membership_after(m: TableModel, changes: Seq<(Seq<char>, bool, bool)>) -> TableModel
    decreases changes.len(),
{
    if changes.len() == 0 {
        m
    } else {
        membership_after(membership_step(m, changes[0]), changes.drop_first())
    }
}

/// Whether `m` is a sound table: ids and ordinals are inverse and every
/// live ordinal is allocated.
pub open spec fn table_sound(m: TableModel) -> bool {
    &&& table_consistent(m.ids, m.ordinals)
    &&& forall|o: u64| #[trigger] m.live.contains(o) ==> (o as int) < m.ids.len()
}

/// Whether `id` is live in `m`: it has an ordinal and that ordinal is live.
pub open spec fn id_live(m: TableModel, id: Seq<char>) -> bool {
    m.ordinals.contains_key(id) && m.live.contains(m.ordinals[id])
}

/// Whether the last change of `changes` for `id` that does something
/// (its document existed or exists) leaves the document existing; `None`
/// when no such change names `id`.
pub open spec fn last_membership(changes: Seq<(Seq<char>, bool, bool)>, id: Seq<char>) -> Option<bool>
    decreases changes.len(),
{
    if changes.len() == 0 {
        None
    } else {
        match last_membership(changes.drop_first(), id) {
            Some(exists) => Some(exists),
            None => if changes[0].0 == id && (changes[0].1 || changes[0].2) {
                Some(changes[0].2)
            } else {
                None
            },
        }
    }
}

proof fn lemma_membership_step(m: TableModel, change: (Seq<char>, bool, bool), id: Seq<char>)
    requires
        table_sound(m),
        m.ids.len() < usize::MAX,
    ensures
        table_sound(membership_step(m, change)),
        membership_step(m, change).ids.len() <= m.ids.len() + 1,
        m.ids.is_prefix_of(membership_step(m, change).ids),
        forall|k: Seq<char>| #[trigger] m.ordinals.contains_key(k) ==> membership_step(m, change).ordinals.contains_key(k)
            && membership_step(m, change).ordinals[k] == m.ordinals[k],
        change.0 == id && change.2 ==> id_live(membership_step(m, change), id),
        change.0 == id && change.1 && !change.2 ==> !id_live(membership_step(m, change), id),
        !(change.0 == id && (change.1 || change.2)) ==> (membership_step(m, change).ordinals.contains_key(id)
            == m.ordinals.contains_key(id) && id_live(membership_step(m, change), id) == id_live(m, id)),
{
    let n = membership_step(m, change);
    let k = change.0;
    if change.2 && !m.ordinals.contains_key(k) {
        let len = m.ids.len();
        assert(n.ordinals.dom() =~= m.ordinals.dom().insert(k));
        assert forall|i: int| 0 <= i < n.ids.len() implies n.ordinals.contains_key(#[trigger] n.ids[i])
            && n.ordinals[n.ids[i]] == i by {
            if i < len {
                assert(n.ids[i] == m.ids[i]);
                assert(m.ordinals.contains_key(m.ids[i]));
            }
        }
        assert forall|x: Seq<char>| #[trigger] n.ordinals.contains_key(x) implies (n.ordinals[x] as int) < n.ids.len()
            && n.ids[n.ordinals[x] as int] == x by {
            if x != k {
                assert(m.ordinals.contains_key(x));
            }
        }
        assert forall|o: u64| #[trigger] n.live.contains(o) implies (o as int) < n.ids.len() by {
            if o != len as u64 {
                assert(m.live.contains(o));
            }
        }
        if k != id && m.ordinals.contains_key(id) {
            assert((m.ordinals[id] as int) < len);
        }
    } else if change.2 {
        assert forall|o: u64| #[trigger] n.live.contains(o) implies (o as int) < n.ids.len() by {
            if o != m.ordinals[k] {
                assert(m.live.contains(o));
            }
        }
        if k != id && m.ordinals.contains_key(id) {
            assert(m.ids[m.ordinals[id] as int] == id);
            assert(m.ids[m.ordinals[k] as int] == k);
        }
    } else if change.1 && m.ordinals.contains_key(k) {
        if k != id && m.ordinals.contains_key(id) {
            assert(m.ids[m.ordinals[id] as int] == id);
            assert(m.ids[m.ordinals[k] as int] == k);
        }
    }
    assert(m.ids.is_prefix_of(n.ids)) by {
        assert(n.ids.subrange(0, m.ids.len() as int) =~= m.ids);
    }
}

/// Whatever order document changes come in, each id ends up as its last
/// change that does something leaves it: live when that change keeps or
/// brings its document, retired when it removes it, and as it was when no
/// such change names it. Ids already known keep their ordinals, new ids
/// only extend the id list, and the table stays sound.
pub proof fn law_membership_follows_last_change(m: TableModel, changes: Seq<(Seq<char>, bool, bool)>, id: Seq<char>)
    requires
        table_sound(m),
        m.ids.len() + changes.len() < usize::MAX,
    ensures
        table_sound(membership_after(m, changes)),
        m.ids.is_prefix_of(membership_after(m, changes).ids),
        m.ordinals.contains_key(id) ==> membership_after(m, changes).ordinals.contains_key(id)
            && membership_after(m, changes).ordinals[id] == m.ordinals[id],
        match last_membership(changes, id) {
            Some(true) => id_live(membership_after(m, changes), id),
            Some(false) => !id_live(membership_after(m, changes), id),
            None => membership_after(m, changes).ordinals.contains_key(id) == m.ordinals.contains_key(id)
                && id_live(membership_after(m, changes), id) == id_live(m, id),
        },
    decreases changes.len(),
{
    if changes.len() > 0 {
        let m1 = membership_step(m, changes[0]);
        lemma_membership_step(m, changes[0], id);
        law_membership_follows_last_change(m1, changes.drop_first(), id);
        let a = membership_after(m1, changes.drop_first());
        assert(m.ids.is_prefix_of(a.ids)) by {
            assert(a.ids.subrange(0, m1.ids.len() as int) =~= m1.ids);
            assert(m1.ids.subrange(0, m.ids.len() as int) =~= m.ids);
            assert(a.ids.subrange(0, m.ids.len() as int) =~= m.ids);
        }
    }
}

/// The changes with each id taken by its characters.
pub open spec fn membership_views(changes: Seq<(String, bool, bool)>) -> Seq<(Seq<char>, bool, bool)> {
    changes.map_values(|c: (String, bool, bool)| (c.0@, c.1, c.2))
}

impl OrdinalTable {
    /// What the table holds.
    pub open spec fn model(&self) -> TableModel {
        TableModel { ids: self.ids(), ordinals: self.ordinals(), live: self.live_set() }
    }

    /// Applies document changes `(id, existed, exists)` in order: a
    /// document that exists is made live, one that existed and is gone is
    /// retired, and one that neither existed nor exists is skipped.
    pub fn apply_membership_changes(&mut self, changes: &[(String, bool, bool)])
        requires
            old(self).well_formed(),
            old(self).ids().len() + changes@.len() < usize::MAX,
        ensures
            final(self).well_formed(),
            final(self).model() == membership_after(old(self).model(), membership_views(changes@)),
            old(self).ids().is_prefix_of(final(self).ids()),
            forall|id: Seq<char>|
                #[trigger] old(self).ordinals().contains_key(id) ==> final(self).ordinals().contains_key(id)
                    && final(self).ordinals()[id] == old(self).ordinals()[id],
            forall|id: Seq<char>|
                match #[trigger] last_membership(membership_views(changes@), id) {
                    Some(true) => id_live(final(self).model(), id),
                    Some(false) => !id_live(final(self).model(), id),
                    None => final(self).ordinals().contains_key(id) == old(self).ordinals().contains_key(id)
                        && id_live(final(self).model(), id) == id_live(old(self).model(), id),
                },
    {
        let ghost all = membership_views(changes@);
        let ghost start = self.model();
        let mut i: usize = 0;
        proof {
            assert(all.subrange(0, all.len() as int) =~= all);
        }
        while i < changes.len()
            invariant
                i <= changes@.len(),
                all == membership_views(changes@),
                all.len() == changes@.len(),
                self.well_formed(),
                self.ids().len() <= start.ids.len() + i,
                start.ids.len() + changes@.len() < usize::MAX,
                membership_after(start, all) == membership_after(self.model(), all.subrange(i as int, all.len() as int)),
            decreases changes@.len() - i,
        {
            let ghost here = self.model();
            let ghost rest = all.subrange(i as int, all.len() as int);
            proof {
                assert(rest.drop_first() =~= all.subrange(i + 1, all.len() as int));
                assert(rest[0] == (changes@[i as int].0@, changes@[i as int].1, changes@[i as int].2));
            }
            let (id, existed, exists) = (&changes[i].0, changes[i].1, changes[i].2);
            if exists {
                // The room left for new ids rules out the only failure.
                let _ = self.ensure_live(id.as_str());
            } else if existed {
                self.remove_live(id.as_str());
            } else {
            }
            proof {
                assert(self.model() == membership_step(here, rest[0]));
            }
            i = i + 1;
        }
        proof {
            assert(all.subrange(i as int, all.len() as int).len() == 0);
            assert(membership_after(self.model(), all.subrange(i as int, all.len() as int)) == self.model());
            assert(table_sound(start));
            assert forall|id: Seq<char>| #[trigger] start.ordinals.contains_key(id) implies self.ordinals().contains_key(id)
                && self.ordinals()[id] == start.ordinals[id] by {
                law_membership_follows_last_change(start, all, id);
            }
            assert forall|id: Seq<char>|
                match #[trigger] last_membership(all, id) {
                    Some(true) => id_live(self.model(), id),
                    Some(false) => !id_live(self.model(), id),
                    None => self.ordinals().contains_key(id) == start.ordinals.contains_key(id)
                        && id_live(self.model(), id) == id_live(start, id),
                } by {
                law_membership_follows_last_change(start, all, id);
            }
            law_membership_follows_last_change(start, all, Seq::empty());
        }
    }
}

/// `out` lists the ids of the members of `members` that have an id, in
/// increasing ordinal order.
pub open spec fn ids_in_ordinal_order(
    ids: Seq<Seq<char>>,
    members: Set<u64>,
    out: Seq<Seq<char>>,
) -> bool {
    exists|ordinals: Seq<u64>|
        {
            &&& ordinals.len() == out.len()
            &&& forall|i: int, j: int| 0 <= i < j < ordinals.len() ==> ordinals[i] < ordinals[j]
            &&& forall|i: int|
                0 <= i < ordinals.len() ==> members.contains(#[trigger] ordinals[i]) && (ordinals[i]
                    as int) < ids.len() && out[i] == ids[ordinals[i] as int]
            &&& forall|o: u64|
                members.contains(o) && (o as int) < ids.len() ==> #[trigger] ordinals.contains(o)
        }
}

/// A candidate bitmap paired with the ordinal table that resolves it. The
/// table is shared, so no primary keys are copied.
pub struct OrdinalSet {
    table: OrdinalTable,
    bitmap: RoaringTreemap,
}

impl OrdinalSet {
    /// The table that resolves the members.
    pub closed spec fn table(&self) -> OrdinalTable {
        self.table
    }

    /// The member ordinals.
    pub closed spec fn members(&self) -> Set<u64> {
        treemap_members(self.bitmap)
    }

    /// Pairs `bitmap` with a shared copy of `table`.
    pub fn new(table: &OrdinalTable, bitmap: RoaringTreemap) -> (r: Self)
        ensures
            r.table().ids() == table.ids(),
            r.table().ordinals() == table.ordinals(),
            r.table().live_set() == table.live_set(),
            r.members() == treemap_members(bitmap),
    {
        OrdinalSet { table: table.clone(), bitmap }
    }

    /// The number of members, saturating at `usize::MAX`.
    pub fn len(&self) -> (r: usize)
        ensures
            r == if self.members().len() <= usize::MAX {
                self.members().len() as int
            } else {
                usize::MAX as int
            },
    {
        bitmap_count_to_usize(treemap_len(&self.bitmap))
    }

    /// Whether `id` has an ordinal that is a member.
    pub fn contains(&self, id: &str) -> (r: bool)
        ensures
            r == (self.table().ordinals().contains_key(id@) && self.members().contains(
                self.table().ordinals()[id@],
            )),
    {
        match self.table.ordinal(id) {
            Some(ordinal) => treemap_contains(&self.bitmap, ordinal),
            None => false,
        }
    }

    /// The member bitmap.
    pub fn bitmap(&self) -> (r: &RoaringTreemap)
        ensures
            treemap_members(*r) == self.members(),
    {
        &self.bitmap
    }

    /// The ids of the members, in increasing ordinal order; members without
    /// an id are skipped.
    pub fn ids(&self) -> (r: Vec<&str>)
        ensures
            ids_in_ordinal_order(
                self.table().ids(),
                self.members(),
                r@.map_values(|id: &str| id@),
            ),
    {
        let values = treemap_values(&self.bitmap);
        let mut out: Vec<&str> = Vec::new();
        let ghost mut chosen: Seq<u64> = Seq::empty();
        let ghost ids = self.table.ids();
        let mut i: usize = 0;
        while i < values.len()
            invariant
                i <= values@.len(),
                ids == self.table.ids(),
                forall|a: int, b: int| 0 <= a < b < values@.len() ==> values@[a] < values@[b],
                forall|a: int|
                    0 <= a < values@.len() ==> self.members().contains(#[trigger] values@[a]),
                forall|v: u64| self.members().contains(v) ==> values@.contains(v),
                chosen.len() == out@.len(),
                forall|a: int, b: int| 0 <= a < b < chosen.len() ==> chosen[a] < chosen[b],
                forall|a: int|
                    0 <= a < chosen.len() ==> self.members().contains(#[trigger] chosen[a]) && (
                    chosen[a] as int) < ids.len() && out@[a]@ == ids[chosen[a] as int],
                forall|a: int| 0 <= a < chosen.len() ==> exists|b: int| 0 <= b < i && values@[b] == #[trigger] chosen[a],
                forall|b: int|
                    0 <= b < i && (values@[b] as int) < ids.len() ==> #[trigger] chosen.contains(
                        values@[b],
                    ),
            decreases values@.len() - i,
        {
            match self.table.id(values[i]) {
                Some(id) => {
                    let ghost prior = chosen;
                    proof {
                        assert forall|a: int| 0 <= a < chosen.len() implies chosen[a] < values@[i as int] by {
                            let b = choose|b: int| 0 <= b < i && values@[b] == #[trigger] chosen[a];
                            assert(values@[b] < values@[i as int]);
                        }
                        chosen = chosen.push(values@[i as int]);
                        assert(chosen.contains(values@[i as int])) by {
                            assert(chosen[chosen.len() - 1] == values@[i as int]);
                        }
                    }
                    out.push(id);
                    proof {
                        assert forall|b: int|
                            0 <= b < i + 1 && (values@[b] as int) < ids.len() implies #[trigger] chosen.contains(
                            values@[b],
                        ) by {
                            if b < i {
                                assert(prior.contains(values@[b]));
                                let a = choose|a: int| 0 <= a < prior.len() && prior[a] == values@[b];
                                assert(chosen[a] == prior[a]);
                            }
                        }
                        assert forall|a: int| 0 <= a < chosen.len() implies exists|b: int| 0 <= b < i + 1 && values@[b] == #[trigger] chosen[a] by {
                            if a == chosen.len() - 1 {
                                assert(values@[i as int] == chosen[a]);
                            } else {
                                assert(chosen[a] == prior[a]);
                            }
                        }
                    }
                },
                None => {},
            }
            i = i + 1;
        }
        proof {
            let views = out@.map_values(|id: &str| id@);
            assert forall|o: u64| self.members().contains(o) && (o as int) < ids.len() implies #[trigger] chosen.contains(o) by {
                let b = choose|b: int| 0 <= b < values@.len() && values@[b] == o;
                assert(values@[b] == o);
            }
            assert forall|a: int| 0 <= a < chosen.len() implies self.members().contains(#[trigger] chosen[a]) && (
                chosen[a] as int) < ids.len() && views[a] == ids[chosen[a] as int] by {
            }
        }
        out
    }

    /// Keeps the members whose id `keep` accepts; members without an id are
    /// dropped.
    pub fn retain_ids<F: Fn(&str) -> bool>(&mut self, keep: F)
        requires
            forall|id: &str| #[trigger] keep.requires((id,)),
        ensures
            final(self).table() == old(self).table(),
            forall|o: u64|
                #[trigger] final(self).members().contains(o) ==> old(self).members().contains(o)
                    && (o as int) < old(self).table().ids().len() && exists|id: &str|
                    id@ == old(self).table().ids()[o as int] && keep.ensures((id,), true),
            forall|o: u64|
                old(self).members().contains(o) && (o as int) < old(self).table().ids().len()
                    && !#[trigger] final(self).members().contains(o) ==> exists|id: &str|
                    id@ == old(self).table().ids()[o as int] && keep.ensures((id,), false),
    {
        let values = treemap_values(&self.bitmap);
        let mut kept = treemap_new();
        let mut i: usize = 0;
        while i < values.len()
            invariant
                i <= values@.len(),
                forall|id: &str| #[trigger] keep.requires((id,)),
                forall|a: int|
                    0 <= a < values@.len() ==> self.members().contains(#[trigger] values@[a]),
                forall|v: u64| self.members().contains(v) ==> values@.contains(v),
                forall|a: int, b: int| 0 <= a < b < values@.len() ==> values@[a] < values@[b],
                forall|o: u64|
                    #[trigger] treemap_members(kept).contains(o) ==> self.members().contains(o)
                        && (o as int) < self.table.ids().len() && exists|id: &str|
                        id@ == self.table.ids()[o as int] && keep.ensures((id,), true),
                forall|o: u64| #[trigger] treemap_members(kept).contains(o) ==> exists|a: int| 0 <= a < i && values@[a] == o,
                forall|a: int|
                    0 <= a < i && (values@[a] as int) < self.table.ids().len()
                        && !#[trigger] treemap_members(kept).contains(values@[a]) ==> exists|id: &str|
                        id@ == self.table.ids()[values@[a] as int] && keep.ensures((id,), false),
            decreases values@.len() - i,
        {
            let ghost before = treemap_members(kept);
            match self.table.id(values[i]) {
                Some(id) => {
                    let accepted = keep(id);
                    if accepted {
                        treemap_insert(&mut kept, values[i]);
                    }
                    proof {
                        assert forall|a: int|
                            0 <= a < i + 1 && (values@[a] as int) < self.table.ids().len()
                                && !#[trigger] treemap_members(kept).contains(values@[a]) implies exists|
                                id: &str,
                            | id@ == self.table.ids()[values@[a] as int] && keep.ensures((id,), false) by {
                            if a < i {
                                assert(!before.contains(values@[a]));
                            }
                        }
                        assert forall|o: u64| #[trigger] treemap_members(kept).contains(o) implies exists|a: int| 0 <= a < i + 1 && values@[a] == o by {
                            if o != values@[i as int] {
                                assert(before.contains(o));
                                let a = choose|a: int| 0 <= a < i && values@[a] == o;
                                assert(values@[a] == o);
                            }
                        }
                    }
                },
                None => {
                    proof {
                        assert forall|a: int|
                            0 <= a < i + 1 && (values@[a] as int) < self.table.ids().len()
                                && !#[trigger] treemap_members(kept).contains(values@[a]) implies exists|
                                id: &str,
                            | id@ == self.table.ids()[values@[a] as int] && keep.ensures((id,), false) by {
                            if a < i {
                            }
                        }
                    }
                },
            }
            i = i + 1;
        }
        let ghost old_members = self.members();
        self.bitmap = kept;
        proof {
            assert forall|o: u64|
                old_members.contains(o) && (o as int) < self.table.ids().len()
                    && !#[trigger] treemap_members(kept).contains(o) implies exists|id: &str|
                    id@ == self.table.ids()[o as int] && keep.ensures((id,), false) by {
                let a = choose|a: int| 0 <= a < values@.len() && values@[a] == o;
                assert(values@[a] == o);
            }
        }
    }
}

/// Whether `bits` is the IEEE-754 pattern of a positive finite double: the
/// patterns strictly between those of `+0.0` and `+infinity`. Among them the
/// bit order is the numeric order (and the `total_cmp` order).
pub open spec fn valid_score_bits(bits: u64) -> bool {
    0 < bits < 0x7ff0_0000_0000_0000
}

/// The score at `i` follows an earlier ordinal, names an allocated, live
/// ordinal, and is a positive finite double.
pub open spec fn score_valid_at(
    ids: Seq<Seq<char>>,
    live: Set<u64>,
    scores: Seq<(u64, u64)>,
    i: int,
) -> bool {
    &&& (i > 0 ==> scores[i - 1].0 < scores[i].0)
    &&& (scores[i].0 as int) < ids.len()
    &&& live.contains(scores[i].0)
    &&& valid_score_bits(scores[i].1)
}

/// Every score is valid.
pub open spec fn scores_valid(ids: Seq<Seq<char>>, live: Set<u64>, scores: Seq<(u64, u64)>) -> bool {
    forall|i: int| 0 <= i < scores.len() ==> #[trigger] score_valid_at(ids, live, scores, i)
}

/// `a` ranks above `b`: a higher score, or an equal score and an id earlier
/// in text order.
pub open spec fn outranks(ids: Seq<Seq<char>>, a: (u64, u64), b: (u64, u64)) -> bool {
    a.1 > b.1 || (a.1 == b.1 && text_less(ids[a.0 as int], ids[b.0 as int]))
}

/// `kept` holds the `limit` entries of `scores` that rank highest, in
/// increasing ordinal order.
pub open spec fn top_scores(
    ids: Seq<Seq<char>>,
    scores: Seq<(u64, u64)>,
    limit: int,
    kept: Seq<(u64, u64)>,
) -> bool {
    &&& kept.len() == limit
    &&& forall|i: int, j: int| 0 <= i < j < kept.len() ==> kept[i].0 < kept[j].0
    &&& forall|i: int| 0 <= i < kept.len() ==> scores.contains(#[trigger] kept[i])
    &&& forall|i: int, j: int|
        #![trigger kept[i], scores[j]]
        0 <= i < kept.len() && 0 <= j < scores.len() && !kept.contains(scores[j]) ==> outranks(
            ids,
            kept[i],
            scores[j],
        )
}

/// Index position `a` ranks above position `b`.
spec fn above(scores: Seq<(u64, u64)>, names: Seq<Seq<char>>, a: int, b: int) -> bool {
    scores[a].1 > scores[b].1 || (scores[a].1 == scores[b].1 && text_less(names[a], names[b]))
}

/// With distinct names the ranking is a strict total order.
proof fn lemma_above_order(scores: Seq<(u64, u64)>, names: Seq<Seq<char>>)
    requires
        names.len() == scores.len(),
        forall|a: int, b: int| 0 <= a < b < names.len() ==> names[a] != names[b],
    ensures
        forall|a: int| 0 <= a < names.len() ==> !#[trigger] above(scores, names, a, a),
        forall|a: int, b: int|
            #[trigger] above(scores, names, a, b) ==> !above(scores, names, b, a),
        forall|a: int, b: int, c: int|
            #[trigger] above(scores, names, a, b) && #[trigger] above(scores, names, b, c) ==> above(
                scores,
                names,
                a,
                c,
            ),
        forall|a: int, b: int|
            0 <= a < names.len() && 0 <= b < names.len() && a != b ==> #[trigger] above(
                scores,
                names,
                a,
                b,
            ) || above(scores, names, b, a),
{
    lemma_text_order();
    assert forall|a: int, b: int|
        0 <= a < names.len() && 0 <= b < names.len() && a != b implies #[trigger] above(
        scores,
        names,
        a,
        b,
    ) || above(scores, names, b, a) by {
        if a < b {
            assert(names[a] != names[b]);
        } else {
            assert(names[b] != names[a]);
        }
    }
}

fn above_at(scores: &Vec<(u64, u64)>, names: &Vec<&str>, a: usize, b: usize) -> (r: bool)
    requires
        a < scores@.len(),
        b < scores@.len(),
        names@.len() == scores@.len(),
    ensures
        r == above(scores@, names@.map_values(|id: &str| id@), a as int, b as int),
{
    scores[a].1 > scores[b].1 || (scores[a].1 == scores[b].1 && compare_text(names[a], names[b])
        == TextOrder::Less)
}

/// The `limit` highest-ranked entries of `scores`, in increasing ordinal
/// order, found by replacing the lowest-ranked kept entry whenever a better
/// one appears.
fn select_top(
    scores: &Vec<(u64, u64)>,
    names: &Vec<&str>,
    limit: usize,
    Ghost(ids): Ghost<Seq<Seq<char>>>,
) -> (r: Vec<(u64, u64)>)
    requires
        names@.len() == scores@.len(),
        limit < scores@.len(),
        forall|i: int, j: int| 0 <= i < j < scores@.len() ==> scores@[i].0 < scores@[j].0,
        forall|i: int|
            0 <= i < scores@.len() ==> (#[trigger] scores@[i].0 as int) < ids.len() && names@[i]@
                == ids[scores@[i].0 as int],
        forall|i: int, j: int| 0 <= i < j < scores@.len() ==> names@[i]@ != names@[j]@,
    ensures
        top_scores(ids, scores@, limit as int, r@),
{
    let ghost views = names@.map_values(|id: &str| id@);
    proof {
        assert forall|a: int, b: int| 0 <= a < b < views.len() implies views[a] != views[b] by {
            assert(views[a] == names@[a]@);
            assert(views[b] == names@[b]@);
        }
        lemma_above_order(scores@, views);
    }
    let n = scores.len();
    let mut kept: Vec<usize> = Vec::new();
    let mut c: usize = 0;
    while c < n
        invariant
            n == scores@.len(),
            views == names@.map_values(|id: &str| id@),
            views.len() == n,
            limit < n,
            c <= n,
            kept@.len() == if c < limit {
                c as int
            } else {
                limit as int
            },
            forall|i: int| 0 <= i < kept@.len() ==> (#[trigger] kept@[i] as int) < c,
            forall|i: int, j: int| 0 <= i < j < kept@.len() ==> kept@[i] != kept@[j],
            c <= limit ==> forall|i: int| 0 <= i < kept@.len() ==> #[trigger] kept@[i] == i,
            forall|i: int, d: usize|
                #![trigger kept@[i], kept@.contains(d)]
                0 <= i < kept@.len() && d < c && !kept@.contains(d) ==> above(
                    scores@,
                    views,
                    kept@[i] as int,
                    d as int,
                ),
            forall|a: int| 0 <= a < views.len() ==> !#[trigger] above(scores@, views, a, a),
            forall|a: int, b: int|
                #[trigger] above(scores@, views, a, b) ==> !above(scores@, views, b, a),
            forall|a: int, b: int, e: int|
                #[trigger] above(scores@, views, a, b) && #[trigger] above(scores@, views, b, e)
                    ==> above(scores@, views, a, e),
            forall|a: int, b: int|
                0 <= a < views.len() && 0 <= b < views.len() && a != b ==> #[trigger] above(
                    scores@,
                    views,
                    a,
                    b,
                ) || above(scores@, views, b, a),
        decreases n - c,
    {
        let ghost before = kept@;
        if kept.len() < limit {
            kept.push(c);
            proof {
                assert forall|i: int, d: usize|
                    #![trigger kept@[i], kept@.contains(d)]
                    0 <= i < kept@.len() && d < c + 1 && !kept@.contains(d) implies above(
                        scores@,
                        views,
                        kept@[i] as int,
                        d as int,
                    ) by {
                    assert(kept@[d as int] == d);
                }
            }
        } else if kept.len() > 0 {
            let mut w: usize = 0;
            let mut j: usize = 1;
            while j < kept.len()
                invariant
                    kept@ == before,
                    n == scores@.len(),
                    views.len() == n,
                    1 <= j <= kept@.len(),
                    w < j,
                    forall|i: int| 0 <= i < kept@.len() ==> (#[trigger] kept@[i] as int) < n,
                    forall|i: int| 0 <= i < j && i != w ==> above(scores@, views, #[trigger] kept@[i] as int, kept@[w as int] as int),
                    forall|a: int, b: int| 0 <= a < b < kept@.len() ==> kept@[a] != kept@[b],
                    names@.len() == scores@.len(),
                    views == names@.map_values(|id: &str| id@),
                    forall|a: int, b: int|
                        #[trigger] above(scores@, views, a, b) ==> !above(scores@, views, b, a),
                    forall|a: int, b: int, e: int|
                        #[trigger] above(scores@, views, a, b) && #[trigger] above(scores@, views, b, e)
                            ==> above(scores@, views, a, e),
                    forall|a: int, b: int|
                        0 <= a < views.len() && 0 <= b < views.len() && a != b ==> #[trigger] above(
                            scores@,
                            views,
                            a,
                            b,
                        ) || above(scores@, views, b, a),
                decreases kept@.len() - j,
            {
                let ghost old_w = w;
                if above_at(scores, names, kept[w], kept[j]) {
                    w = j;
                }
                proof {
                    assert forall|i: int| 0 <= i < j + 1 && i != w implies above(
                        scores@,
                        views,
                        #[trigger] kept@[i] as int,
                        kept@[w as int] as int,
                    ) by {
                        if w == j {
                            if i != old_w {
                                assert(above(scores@, views, kept@[i] as int, kept@[old_w as int] as int));
                            }
                        } else if i == j as int {
                            assert(kept@[i] != kept@[w as int]);
                        }
                    }
                }
                j = j + 1;
            }
            let worst = kept[w];
            if above_at(scores, names, c, worst) {
                kept.set(w, c);
                proof {
                    assert forall|i: int, d: usize|
                        #![trigger kept@[i], kept@.contains(d)]
                        0 <= i < kept@.len() && d < c + 1 && !kept@.contains(d) implies above(
                            scores@,
                            views,
                            kept@[i] as int,
                            d as int,
                        ) by {
                        if d == worst {
                            if i != w as int {
                                assert(kept@[i] == before[i]);
                            }
                        } else {
                            if d == c {
                                assert(kept@.contains(d)) by {
                                    assert(kept@[w as int] == d);
                                }
                            }
                            assert(d < c);
                            assert(!before.contains(d)) by {
                                if before.contains(d) {
                                    let k = choose|k: int| 0 <= k < before.len() && before[k] == d;
                                    assert(k != w as int);
                                    assert(kept@[k] == d);
                                }
                            }
                            if i == w as int {
                                assert(above(scores@, views, worst as int, d as int)) by {
                                    assert(before[w as int] == worst);
                                }
                            } else {
                                assert(kept@[i] == before[i]);
                            }
                        }
                    }
                    assert forall|a: int, b: int| 0 <= a < b < kept@.len() implies kept@[a] != kept@[b] by {
                        if a == w as int {
                            assert(kept@[b] == before[b]);
                        } else if b == w as int {
                            assert(kept@[a] == before[a]);
                        } else {
                            assert(kept@[a] == before[a]);
                            assert(kept@[b] == before[b]);
                        }
                    }
                }
            } else {
                proof {
                    assert(above(scores@, views, worst as int, c as int)) by {
                        assert(worst != c);
                    }
                    assert forall|i: int, d: usize|
                        #![trigger kept@[i], kept@.contains(d)]
                        0 <= i < kept@.len() && d < c + 1 && !kept@.contains(d) implies above(
                            scores@,
                            views,
                            kept@[i] as int,
                            d as int,
                        ) by {
                        if d == c && i != w as int {
                            assert(above(scores@, views, kept@[i] as int, worst as int));
                        }
                    }
                }
            }
        }
        c = c + 1;
    }
    let mut selected: Vec<bool> = Vec::new();
    let mut f: usize = 0;
    while f < n
        invariant
            f <= n,
            selected@.len() == f,
            forall|i: int| 0 <= i < f ==> !#[trigger] selected@[i],
        decreases n - f,
    {
        selected.push(false);
        f = f + 1;
    }
    let mut k: usize = 0;
    while k < kept.len()
        invariant
            k <= kept@.len(),
            selected@.len() == n,
            forall|i: int| 0 <= i < kept@.len() ==> (#[trigger] kept@[i] as int) < n,
            forall|i: int|
                0 <= i < n ==> #[trigger] selected@[i] == (exists|j: int| 0 <= j < k && kept@[j] == i),
        decreases kept@.len() - k,
    {
        let ghost prior = selected@;
        selected.set(kept[k], true);
        proof {
            assert forall|i: int| 0 <= i < n implies #[trigger] selected@[i] == (exists|j: int|
                0 <= j < k + 1 && kept@[j] == i) by {
                if i == kept@[k as int] as int {
                    assert(kept@[k as int] == i);
                } else {
                    assert(selected@[i] == prior[i]);
                    if exists|j: int| 0 <= j < k + 1 && kept@[j] == i {
                        let j = choose|j: int| 0 <= j < k + 1 && kept@[j] == i;
                        assert(j != k as int);
                    }
                }
            }
        }
        k = k + 1;
    }
    let mut out: Vec<(u64, u64)> = Vec::new();
    let ghost mut chosen: Seq<int> = Seq::empty();
    let mut e: usize = 0;
    while e < n
        invariant
            e <= n,
            n == scores@.len(),
            selected@.len() == n,
            forall|i: int|
                0 <= i < n ==> #[trigger] selected@[i] == (exists|j: int| 0 <= j < kept@.len() && kept@[j] == i),
            chosen.len() == out@.len(),
            forall|i: int, j: int| 0 <= i < j < chosen.len() ==> chosen[i] < chosen[j],
            forall|i: int| 0 <= i < chosen.len() ==> 0 <= #[trigger] chosen[i] < e && selected@[chosen[i]] && out@[i] == scores@[chosen[i]],
            forall|i: int| 0 <= i < e && selected@[i] ==> #[trigger] chosen.contains(i),
        decreases n - e,
    {
        if selected[e] {
            let ghost prior = chosen;
            out.push(scores[e]);
            proof {
                chosen = chosen.push(e as int);
                assert forall|i: int| 0 <= i < e + 1 && selected@[i] implies #[trigger] chosen.contains(i) by {
                    if i == e as int {
                        assert(chosen[chosen.len() - 1] == i);
                    } else {
                        assert(prior.contains(i));
                        let a = choose|a: int| 0 <= a < prior.len() && prior[a] == i;
                        assert(chosen[a] == i);
                    }
                }
            }
        }
        e = e + 1;
    }
    proof {
        let kept_ints = kept@.map_values(|x: usize| x as int);
        assert(kept_ints.no_duplicates()) by {
            assert forall|a: int, b: int| 0 <= a < kept_ints.len() && 0 <= b < kept_ints.len() && a != b implies kept_ints[a] != kept_ints[b] by {
                if a < b {
                    assert(kept@[a] != kept@[b]);
                } else {
                    assert(kept@[b] != kept@[a]);
                }
            }
        }
        assert(chosen.no_duplicates()) by {
            assert forall|a: int, b: int| 0 <= a < chosen.len() && 0 <= b < chosen.len() && a != b implies chosen[a] != chosen[b] by {
                if a < b {
                    assert(chosen[a] < chosen[b]);
                } else {
                    assert(chosen[b] < chosen[a]);
                }
            }
        }
        assert(chosen.to_set() =~= kept_ints.to_set()) by {
            assert forall|x: int| chosen.to_set().contains(x) <==> kept_ints.to_set().contains(x) by {
                if chosen.to_set().contains(x) {
                    let a = choose|a: int| 0 <= a < chosen.len() && chosen[a] == x;
                    assert(selected@[chosen[a]]);
                    let j = choose|j: int| 0 <= j < kept@.len() && kept@[j] == x;
                    assert(kept_ints[j] == x);
                }
                if kept_ints.to_set().contains(x) {
                    let j = choose|j: int| 0 <= j < kept_ints.len() && kept_ints[j] == x;
                    assert(kept@[j] == x);
                    assert(selected@[x]);
                    assert(chosen.contains(x));
                }
            }
        }
        chosen.unique_seq_to_set();
        kept_ints.unique_seq_to_set();
        assert forall|i: int, j: int| 0 <= i < j < out@.len() implies out@[i].0 < out@[j].0 by {
            assert(chosen[i] < chosen[j]);
        }
        assert forall|i: int| 0 <= i < out@.len() implies scores@.contains(#[trigger] out@[i]) by {
            assert(scores@[chosen[i]] == out@[i]);
        }
        assert forall|i: int, j: int|
            #![trigger out@[i], scores@[j]]
            0 <= i < out@.len() && 0 <= j < scores@.len() && !out@.contains(scores@[j]) implies outranks(
            ids,
            out@[i],
            scores@[j],
        ) by {
            let ci = chosen[i];
            assert(selected@[ci]);
            let ki = choose|ki: int| 0 <= ki < kept@.len() && kept@[ki] == ci;
            assert(!kept@.contains(j as usize)) by {
                if kept@.contains(j as usize) {
                    let kj = choose|kj: int| 0 <= kj < kept@.len() && kept@[kj] == j as usize;
                    assert(kept@[kj] == j);
                    assert(selected@[j]);
                    assert(chosen.contains(j));
                    let a = choose|a: int| 0 <= a < chosen.len() && chosen[a] == j;
                    assert(out@[a] == scores@[j]);
                }
            }
            assert(above(scores@, views, kept@[ki] as int, j));
            assert(views[ci] == names@[ci]@);
            assert(views[j] == names@[j]@);
        }
    }
    out
}

/// Index scores paired with the ordinal generation that produced them,
/// scores kept as the bit patterns of positive finite doubles. Ids are
/// resolved on demand through the shared table.
pub struct OrdinalScores {
    table: OrdinalTable,
    scores: Vec<(u64, u64)>,
    candidate_count: usize,
}

impl OrdinalScores {
    /// The ids by ordinal of the table that resolves the scores.
    pub closed spec fn table_ids(&self) -> Seq<Seq<char>> {
        self.table.ids()
    }

    /// The retained `(ordinal, score bits)` pairs.
    pub closed spec fn entries_spec(&self) -> Seq<(u64, u64)> {
        self.scores@
    }

    /// How many scores were offered.
    pub closed spec fn candidates(&self) -> nat {
        self.candidate_count as nat
    }

    /// Every retained ordinal has an id.
    pub closed spec fn well_formed(&self) -> bool {
        forall|i: int|
            0 <= i < self.scores@.len() ==> (#[trigger] self.scores@[i].0 as int) < self.table.ids().len()
    }

    /// All the scores of a generation.
    pub fn new(table: &OrdinalTable, scores: Vec<(u64, u64)>) -> (r: Result<Self>)
        requires
            table.well_formed(),
        ensures
            !scores_valid(table.ids(), table.live_set(), scores@) ==> (r matches Err(e) && e.code
                == ErrorCode::Internal),
            scores_valid(table.ids(), table.live_set(), scores@) ==> (r matches Ok(kept)
                && kept.well_formed() && kept.table_ids() == table.ids() && kept.candidates()
                == scores@.len() && kept.entries_spec() == scores@),
    {
        Self::build(table, scores, None)
    }

    /// The `limit` highest-ranked scores of a generation; the candidate
    /// count still counts every offered score.
    pub fn new_topk(table: &OrdinalTable, scores: Vec<(u64, u64)>, limit: usize) -> (r: Result<Self>)
        requires
            table.well_formed(),
        ensures
            !scores_valid(table.ids(), table.live_set(), scores@) ==> (r matches Err(e) && e.code
                == ErrorCode::Internal),
            scores_valid(table.ids(), table.live_set(), scores@) ==> (r matches Ok(kept)
                && kept.well_formed() && kept.table_ids() == table.ids() && kept.candidates()
                == scores@.len() && (limit >= scores@.len() ==> kept.entries_spec() == scores@) && (
            limit < scores@.len() ==> top_scores(
                table.ids(),
                scores@,
                limit as int,
                kept.entries_spec(),
            ))),
    {
        Self::build(table, scores, Some(limit))
    }

    fn build(table: &OrdinalTable, scores: Vec<(u64, u64)>, limit: Option<usize>) -> (r: Result<
        Self,
    >)
        requires
            table.well_formed(),
        ensures
            !scores_valid(table.ids(), table.live_set(), scores@) ==> (r matches Err(e) && e.code
                == ErrorCode::Internal),
            scores_valid(table.ids(), table.live_set(), scores@) ==> (r matches Ok(kept)
                && kept.well_formed() && kept.table_ids() == table.ids() && kept.candidates()
                == scores@.len() && (match limit {
                Some(l) => if l < scores@.len() {
                    top_scores(table.ids(), scores@, l as int, kept.entries_spec())
                } else {
                    kept.entries_spec() == scores@
                },
                None => kept.entries_spec() == scores@,
            })),
    {
        let candidate_count = scores.len();
        let mut names: Vec<&str> = Vec::new();
        let mut previous: Option<u64> = None;
        let mut i: usize = 0;
        while i < scores.len()
            invariant
                i <= scores@.len(),
                names@.len() == i,
                forall|j: int| 0 <= j < i ==> #[trigger] score_valid_at(table.ids(), table.live_set(), scores@, j),
                forall|j: int| 0 <= j < i ==> (#[trigger] names@[j])@ == table.ids()[scores@[j].0 as int],
                previous == if i == 0 {
                    None::<u64>
                } else {
                    Some(scores@[i - 1].0)
                },
            decreases scores@.len() - i,
        {
            let (ordinal, score) = scores[i];
            match validate_score(table, previous, ordinal, score) {
                Ok(id) => {
                    names.push(id);
                },
                Err(error) => {
                    proof {
                        assert(!score_valid_at(table.ids(), table.live_set(), scores@, i as int));
                    }
                    return Err(error);
                },
            }
            previous = Some(ordinal);
            i = i + 1;
        }
        proof {
            assert forall|a: int, b: int| 0 <= a < b < scores@.len() implies scores@[a].0 < scores@[b].0 by {
                lemma_ascending_from_steps(scores@, table.ids(), table.live_set(), a, b);
            }
        }
        let retained = match limit {
            Some(l) => {
                if l < candidate_count {
                    proof {
                        assert forall|a: int, b: int| 0 <= a < b < scores@.len() implies names@[a]@ != names@[b]@ by {
                            lemma_ascending_from_steps(scores@, table.ids(), table.live_set(), a, b);
                            assert(score_valid_at(table.ids(), table.live_set(), scores@, a));
                            assert(score_valid_at(table.ids(), table.live_set(), scores@, b));
                            let ids = table.ids();
                            assert(table.ordinals()[ids[scores@[a].0 as int]] == scores@[a].0);
                            assert(table.ordinals()[ids[scores@[b].0 as int]] == scores@[b].0);
                        }
                        assert forall|j: int| 0 <= j < scores@.len() implies (#[trigger] scores@[j].0 as int) < table.ids().len() && names@[j]@
                            == table.ids()[scores@[j].0 as int] by {
                            assert(score_valid_at(table.ids(), table.live_set(), scores@, j));
                        }
                    }
                    select_top(&scores, &names, l, Ghost(table.ids()))
                } else {
                    scores
                }
            },
            None => scores,
        };
        proof {
            assert forall|j: int| 0 <= j < retained@.len() implies (#[trigger] retained@[j].0 as int) < table.ids().len() by {
                if retained@.len() != scores@.len() || retained@ != scores@ {
                    assert(scores@.contains(retained@[j]));
                    let a = choose|a: int| 0 <= a < scores@.len() && scores@[a] == retained@[j];
                    assert(score_valid_at(table.ids(), table.live_set(), scores@, a));
                } else {
                    assert(score_valid_at(table.ids(), table.live_set(), scores@, j));
                }
            }
        }
        Ok(OrdinalScores { table: table.clone(), scores: retained, candidate_count })
    }

    /// The number of retained scores.
    pub fn len(&self) -> (r: usize)
        ensures
            r == self.entries_spec().len(),
    {
        self.scores.len()
    }

    /// How many scores were offered, before any top-k cut.
    pub fn candidate_count(&self) -> (r: u64)
        ensures
            r == self.candidates(),
    {
        self.candidate_count as u64
    }

    /// The retained scores with their ids, in increasing ordinal order.
    pub fn entries(&self) -> (r: Vec<(&str, u64)>)
        requires
            self.well_formed(),
        ensures
            r@.len() == self.entries_spec().len(),
            forall|i: int|
                0 <= i < r@.len() ==> (#[trigger] r@[i]).0@ == self.table_ids()[self.entries_spec()[i].0 as int]
                    && r@[i].1 == self.entries_spec()[i].1,
    {
        let mut out: Vec<(&str, u64)> = Vec::new();
        let mut i: usize = 0;
        while i < self.scores.len()
            invariant
                i <= self.scores@.len(),
                self.well_formed(),
                out@.len() == i,
                forall|j: int|
                    0 <= j < i ==> (#[trigger] out@[j]).0@ == self.table.ids()[self.scores@[j].0 as int]
                        && out@[j].1 == self.scores@[j].1,
            decreases self.scores@.len() - i,
        {
            let (ordinal, score) = self.scores[i];
            match self.table.id(ordinal) {
                Some(id) => {
                    out.push((id, score));
                },
                None => {
                    proof {
                        assert((self.scores@[i as int].0 as int) < self.table.ids().len());
                    }
                },
            }
            i = i + 1;
        }
        out
    }
}

/// Each score follows the one before it, so ordinals strictly increase.
proof fn lemma_ascending_from_steps(
    scores: Seq<(u64, u64)>,
    ids: Seq<Seq<char>>,
    live: Set<u64>,
    a: int,
    b: int,
)
    requires
        0 <= a < b < scores.len(),
        forall|j: int| 0 <= j < scores.len() ==> #[trigger] score_valid_at(ids, live, scores, j),
    ensures
        scores[a].0 < scores[b].0,
    decreases b - a,
{
    assert(score_valid_at(ids, live, scores, b));
    if a < b - 1 {
        lemma_ascending_from_steps(scores, ids, live, a, b - 1);
    }
}

/// Checks one score against the previous ordinal and the table.
fn validate_score<'a>(table: &'a OrdinalTable, previous: Option<u64>, ordinal: u64, score: u64) -> (r:
    Result<&'a str>)
    ensures
        r is Ok == ((previous matches Some(p) ==> p < ordinal) && (ordinal as int)
            < table.ids().len() && table.live_set().contains(ordinal) && valid_score_bits(score)),
        r matches Ok(id) ==> id@ == table.ids()[ordinal as int],
        r matches Err(e) ==> e.code == ErrorCode::Internal,
{
    if let Some(p) = previous {
        if ordinal <= p {
            return Err(Error::internal("scored document ordinals must be unique and ordered"));
        }
    }
    let id = match table.id(ordinal) {
        Some(id) => id,
        None => {
            return Err(Error::internal("document mapping is missing for a scored ordinal"));
        },
    };
    if !treemap_contains(table.live(), ordinal) {
        return Err(Error::internal("a scored document ordinal is not live"));
    }
    if !(score > 0 && score < 0x7ff0_0000_0000_0000) {
        return Err(Error::internal("a document ordinal has an invalid index score"));
    }
    Ok(id)
}

/// A map whose keys all occur in a list is finite.
proof fn lemma_keys_listed_finite<V, W>(entries: Seq<(String, V)>, map: Map<Seq<char>, W>)
    requires
        forall|k: Seq<char>|
            map.contains_key(k) ==> exists|i: int|
                0 <= i < entries.len() && #[trigger] entries[i].0@ == k,
    ensures
        map.dom().finite(),
{
    let keys = entries.map_values(|e: (String, V)| e.0@);
    assert(map.dom().subset_of(keys.to_set())) by {
        assert forall|k: Seq<char>| map.dom().contains(k) implies keys.to_set().contains(k) by {
            let i = choose|i: int| 0 <= i < entries.len() && #[trigger] entries[i].0@ == k;
            assert(keys[i] == k);
        }
    }
    vstd::seq_lib::seq_to_set_is_finite(keys);
    vstd::set_lib::lemma_set_subset_finite(keys.to_set(), map.dom());
}

} // verus!
