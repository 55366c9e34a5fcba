//! One generation of a vector index: an immutable shared base (the vectors,
//! their ordinals and the ANN structure built over them) and an overlay of
//! changed vectors and hidden base entries, with the counts and candidate
//! merging that searches use.

use crate::index::bitmap::{
    treemap_clone, treemap_contains, treemap_insert, treemap_remove,
    treemap_intersection, treemap_intersection_len, treemap_len, treemap_members, treemap_subtract,
    treemap_union_with,
};
use crate::index::diskann_index::DiskannIndex;
use crate::index::flat::FlatIndex;
use crate::index::fts::share;
use crate::index::hnsw::{clamp_usize, HnswIndex};
use crate::index::ivf::IvfIndex;
use crate::index::limits::{bitmap_count_to_usize, delta_compaction_limit, spec_compaction_limit};
use crate::index::ordinal_map::OrdinalMap;
use crate::index::quantization::QuantizedVector;
use crate::index::rabitq_index::{HnswRabitqIndex, IvfRabitqIndex};
use crate::index::vamana::VamanaIndex;
use roaring::RoaringTreemap;
use std::collections::BTreeMap;
use vstd::std_specs::btree::spec_keys_iter;
use vstd::std_specs::iter::IteratorSpec;
use std::sync::Arc;
use vstd::prelude::*;

verus! {

/// The ANN structure of a base.
pub enum VectorIndexKind {
    Flat(FlatIndex),
    Hnsw(HnswIndex),
    HnswRabitq(HnswRabitqIndex),
    Ivf(IvfIndex),
    IvfRabitq(IvfRabitqIndex),
    Diskann(DiskannIndex),
    Vamana(VamanaIndex),
}

/// The part of a vector index shared between generations: the vectors by
/// ordinal, the set of those ordinals, and the ANN structure over them.
pub struct VectorIndexBase {
    pub vectors: OrdinalMap<QuantizedVector>,
    pub vector_ordinals: RoaringTreemap,
    pub kind: VectorIndexKind,
}

/// A cardinality narrowed to `usize`, saturating.
pub open spec fn count_to_usize(count: int) -> int {
    if count <= usize::MAX {
        count
    } else {
        usize::MAX as int
    }
}

/// `a - b`, not below zero.
pub open spec fn minus_floor(a: int, b: int) -> int {
    if a >= b {
        a - b
    } else {
        0
    }
}

/// `a + b`, capped at `u64::MAX`.
pub open spec fn plus_cap_u64(a: int, b: int) -> int {
    if a + b <= u64::MAX {
        a + b
    } else {
        u64::MAX as int
    }
}

/// How many of the first `n` of `keys` lie outside `base`.
pub open spec fn outside_count(keys: Seq<u64>, n: int, base: Set<u64>) -> nat
    decreases n,
{
    if n <= 0 {
        0
    } else {
        outside_count(keys, n - 1, base) + if base.contains(keys[n - 1]) {
            0nat
        } else {
            1nat
        }
    }
}

proof fn lemma_outside_count(keys: Seq<u64>, n: int, base: Set<u64>)
    requires
        keys.no_duplicates(),
        0 <= n <= keys.len(),
    ensures
        outside_count(keys, n, base) == keys.take(n).to_set().difference(base).len(),
    decreases n,
{
    if n == 0 {
        assert(keys.take(0).to_set().difference(base) =~= Set::<u64>::empty());
    } else {
        lemma_outside_count(keys, n - 1, base);
        let prev = keys.take(n - 1);
        let x = keys[n - 1];
        assert(keys.take(n) =~= prev.push(x));
        prev.lemma_push_to_set_commute(x);
        assert(!prev.to_set().contains(x)) by {
            if prev.to_set().contains(x) {
                let j = choose|j: int| 0 <= j < prev.len() && prev[j] == x;
                assert(keys[j] == keys[n - 1]);
            }
        }
        vstd::seq_lib::seq_to_set_is_finite(prev);
        if base.contains(x) {
            assert(keys.take(n).to_set().difference(base) =~= prev.to_set().difference(base));
        } else {
            assert(keys.take(n).to_set().difference(base) =~= prev.to_set().difference(base).insert(x));
        }
    }
}

/// What the overlay of a generation holds: the changed vectors, their
/// ordinals, and the hidden base ordinals.
pub struct Overlay {
    pub delta: Map<u64, QuantizedVector>,
    pub delta_ordinals: Set<u64>,
    pub tombstones: Set<u64>,
}

/// The overlay after one change of the vector of `ordinal` (`None`: the
/// document has no vector any more), over a base holding vectors for
/// `base`: any pending change of it is dropped, a base entry of it is
/// hidden (one that is not in the base is unhidden), and a new vector goes
/// into the delta.
pub open spec fn overlay_step(base: Set<u64>, overlay: Overlay, ordinal: u64, vector: Option<QuantizedVector>) -> Overlay {
    let delta = overlay.delta.remove(ordinal);
    let delta_ordinals = overlay.delta_ordinals.remove(ordinal);
    let tombstones = if base.contains(ordinal) {
        overlay.tombstones.insert(ordinal)
    } else {
        overlay.tombstones.remove(ordinal)
    };
    match vector {
        Some(v) => Overlay { delta: delta.insert(ordinal, v), delta_ordinals: delta_ordinals.insert(ordinal), tombstones },
        None => Overlay { delta, delta_ordinals, tombstones },
    }
}

/// The overlay after `changes`, applied in order.
pub open spec fn overlay_after(base: Set<u64>, overlay: Overlay, changes: Seq<(u64, Option<QuantizedVector>)>) -> Overlay
    decreases changes.len(),
{
    if changes.len() == 0 {
        overlay
    } else {
        let prev = overlay_after(base, overlay, changes.drop_last());
        overlay_step(base, prev, changes.last().0, changes.last().1)
    }
}

/// The vector a generation shows for `ordinal`: its changed vector, else
/// its base vector unless that is hidden.
pub open spec fn visible_vector(base: Map<u64, QuantizedVector>, overlay: Overlay, ordinal: u64) -> Option<
    QuantizedVector,
> {
    if overlay.delta.contains_key(ordinal) {
        Some(overlay.delta[ordinal])
    } else if !overlay.tombstones.contains(ordinal) && base.contains_key(ordinal) {
        Some(base[ordinal])
    } else {
        None
    }
}

/// The last change `changes` make to `ordinal`, if any.
pub open spec fn last_change(changes: Seq<(u64, Option<QuantizedVector>)>, ordinal: u64) -> Option<
    Option<QuantizedVector>,
>
    decreases changes.len(),
{
    if changes.len() == 0 {
        None
    } else if changes.last().0 == ordinal {
        Some(changes.last().1)
    } else {
        last_change(changes.drop_last(), ordinal)
    }
}

/// After any run of changes, a generation shows for each ordinal the
/// vector its last change gave it (none for a removal), and for an ordinal
/// no change touched the vector it showed before.
pub proof fn law_overlay_shows_the_last_change(
    base: Map<u64, QuantizedVector>,
    overlay: Overlay,
    changes: Seq<(u64, Option<QuantizedVector>)>,
    ordinal: u64,
)
    ensures
        visible_vector(base, overlay_after(base.dom(), overlay, changes), ordinal) == match last_change(
            changes,
            ordinal,
        ) {
            Some(change) => change,
            None => visible_vector(base, overlay, ordinal),
        },
    decreases changes.len(),
{
    if changes.len() > 0 {
        law_overlay_shows_the_last_change(base, overlay, changes.drop_last(), ordinal);
    }
}

/// What `changes` leave in the overlay for one ordinal: an ordinal whose
/// last change gave it a vector has exactly that vector in the delta and is
/// listed among the changed ordinals; one whose last change removed its
/// vector is in neither; either way its base entry is hidden exactly when
/// the base holds it. An ordinal no change touched keeps its delta entry,
/// its listing and its hiding.
pub open spec fn overlay_entry_follows_changes(
    base: Set<u64>,
    before: Overlay,
    after: Overlay,
    changes: Seq<(u64, Option<QuantizedVector>)>,
    ordinal: u64,
) -> bool {
    match last_change(changes, ordinal) {
        Some(Some(v)) => {
            &&& after.delta.contains_key(ordinal)
            &&& after.delta[ordinal] == v
            &&& after.delta_ordinals.contains(ordinal)
            &&& after.tombstones.contains(ordinal) == base.contains(ordinal)
        },
        Some(None) => {
            &&& !after.delta.contains_key(ordinal)
            &&& !after.delta_ordinals.contains(ordinal)
            &&& after.tombstones.contains(ordinal) == base.contains(ordinal)
        },
        None => {
            &&& after.delta.contains_key(ordinal) == before.delta.contains_key(ordinal)
            &&& (before.delta.contains_key(ordinal) ==> after.delta[ordinal] == before.delta[ordinal])
            &&& after.delta_ordinals.contains(ordinal) == before.delta_ordinals.contains(ordinal)
            &&& after.tombstones.contains(ordinal) == before.tombstones.contains(ordinal)
        },
    }
}

/// After any run of changes, each ordinal's overlay entry is decided by
/// its last change alone (see `overlay_entry_follows_changes`): a vector
/// given by the last change is in the delta and among the changed
/// ordinals, so merged searches see it.
pub proof fn law_overlay_follows_last_change(
    base: Set<u64>,
    overlay: Overlay,
    changes: Seq<(u64, Option<QuantizedVector>)>,
    ordinal: u64,
)
    ensures
        overlay_entry_follows_changes(base, overlay, overlay_after(base, overlay, changes), changes, ordinal),
    decreases changes.len(),
{
    if changes.len() > 0 {
        law_overlay_follows_last_change(base, overlay, changes.drop_last(), ordinal);
    }
}

/// Changes keep the changed-ordinal list in step with the delta: when the
/// ordinals listed as changed are exactly those with a delta vector before,
/// they still are after any run of changes.
pub proof fn law_changed_ordinals_match_the_delta(
    base: Set<u64>,
    overlay: Overlay,
    changes: Seq<(u64, Option<QuantizedVector>)>,
)
    requires
        overlay.delta_ordinals == overlay.delta.dom(),
    ensures
        overlay_after(base, overlay, changes).delta_ordinals == overlay_after(base, overlay, changes).delta.dom(),
{
    let after = overlay_after(base, overlay, changes);
    assert forall|o: u64| after.delta_ordinals.contains(o) == after.delta.dom().contains(o) by {
        law_overlay_follows_last_change(base, overlay, changes, o);
    }
    assert(after.delta_ordinals =~= after.delta.dom());
}

/// A document whose last change gave it a vector is a search candidate
/// after the changes: it is in the merge of any base candidates with the
/// overlay (as `merge_candidates` forms it), with no filter and with any
/// filter that admits it; one whose last change removed its vector is a
/// candidate only when the base candidates hold it and the base does not.
pub proof fn law_changed_vectors_are_candidates(
    base: Set<u64>,
    overlay: Overlay,
    changes: Seq<(u64, Option<QuantizedVector>)>,
    candidates: Set<u64>,
    allowed: Set<u64>,
    ordinal: u64,
)
    ensures
        ({
            let after = overlay_after(base, overlay, changes);
            let unfiltered = candidates.difference(after.tombstones).union(after.delta_ordinals);
            let filtered = candidates.difference(after.tombstones).intersect(allowed).union(
                after.delta_ordinals.intersect(allowed),
            );
            &&& last_change(changes, ordinal) matches Some(Some(_)) ==> unfiltered.contains(ordinal)
                && (allowed.contains(ordinal) ==> filtered.contains(ordinal))
            &&& last_change(changes, ordinal) matches Some(None) ==> (unfiltered.contains(ordinal) <==> (
            candidates.contains(ordinal) && !base.contains(ordinal)))
        }),
{
    law_overlay_follows_last_change(base, overlay, changes, ordinal);
}

/// A vector index generation. Vectors changed since the base was built
/// live in `delta` (their ordinals in `delta_ordinals`); an updated or
/// removed base vector is in `tombstones`, which hides its base entry.
pub struct VectorIndex {
    source_revision: u64,
    base: Arc<VectorIndexBase>,
    delta: BTreeMap<u64, QuantizedVector>,
    delta_ordinals: RoaringTreemap,
    tombstones: RoaringTreemap,
}

impl VectorIndex {
    /// The document revision the generation reflects.
    pub closed spec fn spec_source_revision(&self) -> u64 {
        self.source_revision
    }

    /// The shared base.
    pub closed spec fn spec_base(&self) -> VectorIndexBase {
        *self.base
    }

    /// The changed vectors by ordinal.
    pub closed spec fn spec_delta(&self) -> Map<u64, QuantizedVector> {
        self.delta@
    }

    /// The ordinals of the changed vectors.
    pub closed spec fn spec_delta_ordinals(&self) -> Set<u64> {
        treemap_members(self.delta_ordinals)
    }

    /// The hidden base ordinals.
    pub closed spec fn spec_tombstones(&self) -> Set<u64> {
        treemap_members(self.tombstones)
    }

    /// The base ordinals as the base records them.
    pub open spec fn spec_base_ordinals(&self) -> Set<u64> {
        treemap_members(self.spec_base().vector_ordinals)
    }

    /// A generation with the given parts.
    pub fn from_parts(
        source_revision: u64,
        base: Arc<VectorIndexBase>,
        delta: BTreeMap<u64, QuantizedVector>,
        delta_ordinals: RoaringTreemap,
        tombstones: RoaringTreemap,
    ) -> (r: Self)
        ensures
            r.spec_source_revision() == source_revision,
            r.spec_base() == *base,
            r.spec_delta() == delta@,
            r.spec_delta_ordinals() == treemap_members(delta_ordinals),
            r.spec_tombstones() == treemap_members(tombstones),
    {
        VectorIndex { source_revision, base, delta, delta_ordinals, tombstones }
    }

    /// The document revision the generation reflects.
    pub fn source_revision(&self) -> (r: u64)
        ensures
            r == self.spec_source_revision(),
    {
        self.source_revision
    }

    /// The shared base.
    pub fn base(&self) -> (r: &VectorIndexBase)
        ensures
            *r == self.spec_base(),
    {
        &self.base
    }

    /// How many vectors the generation holds: the base's recorded count less
    /// its hidden entries (saturating), plus the changed vectors
    /// (saturating).
    pub fn live_vector_count(&self) -> (r: usize)
        ensures
            r == clamp_usize(
                minus_floor(
                    self.spec_base().vectors.recorded_len() as int,
                    count_to_usize(self.spec_tombstones().intersect(self.spec_base_ordinals()).len() as int),
                ) + self.spec_delta().len(),
            ),
    {
        let hidden = bitmap_count_to_usize(treemap_intersection_len(&self.tombstones, &self.base.vector_ordinals));
        let base_count = self.base.vectors.len();
        let visible = if base_count >= hidden {
            base_count - hidden
        } else {
            0
        };
        visible.saturating_add(self.delta.len())
    }

    /// How many of the `allowed` ordinals the base shows, not below zero.
    fn base_eligible_count(&self, allowed: &RoaringTreemap) -> (r: u64)
        ensures
            r == minus_floor(
                self.spec_base_ordinals().intersect(treemap_members(*allowed)).len() as int,
                self.spec_tombstones().intersect(treemap_members(*allowed)).len() as int,
            ),
    {
        let shown = treemap_intersection_len(&self.base.vector_ordinals, allowed);
        let hidden = treemap_intersection_len(&self.tombstones, allowed);
        if shown >= hidden {
            shown - hidden
        } else {
            0
        }
    }

    /// How many `allowed` ordinals have a live vector, counted as the
    /// allowed base ordinals less the allowed hidden ones (not below zero)
    /// plus the allowed changed ones, saturating.
    pub fn eligible_vector_count(&self, allowed: &RoaringTreemap) -> (r: usize)
        ensures
            r == count_to_usize(
                plus_cap_u64(
                    minus_floor(
                        self.spec_base_ordinals().intersect(treemap_members(*allowed)).len() as int,
                        self.spec_tombstones().intersect(treemap_members(*allowed)).len() as int,
                    ),
                    self.spec_delta_ordinals().intersect(treemap_members(*allowed)).len() as int,
                ),
            ),
    {
        let base = self.base_eligible_count(allowed);
        let delta = treemap_intersection_len(&self.delta_ordinals, allowed);
        bitmap_count_to_usize(base.saturating_add(delta))
    }

    /// How many `allowed` ordinals the base shows: its allowed ordinals less
    /// the allowed hidden ones, not below zero.
    pub fn base_eligible_vector_count(&self, allowed: &RoaringTreemap) -> (r: usize)
        ensures
            r == count_to_usize(
                minus_floor(
                    self.spec_base_ordinals().intersect(treemap_members(*allowed)).len() as int,
                    self.spec_tombstones().intersect(treemap_members(*allowed)).len() as int,
                ),
            ),
    {
        bitmap_count_to_usize(self.base_eligible_count(allowed))
    }

    /// The overlay's size: the hidden base entries plus the changed
    /// vectors with no base entry, saturating.
    pub fn overlay_len(&self) -> (r: usize)
        ensures
            r == clamp_usize(
                count_to_usize(self.spec_tombstones().len() as int) + self.spec_delta().dom().difference(
                    self.spec_base().vectors@.dom(),
                ).len(),
            ),
    {
        let ghost base = self.base.vectors@.dom();
        let total = self.delta.len();
        let ghost keys = spec_keys_iter(&self.delta).remaining().unref();
        let mut new_vectors: usize = 0;
        for ordinal in it: self.delta.keys()
            invariant
                base == self.base.vectors@.dom(),
                total == self.delta@.dom().len(),
                it.seq() == spec_keys_iter(&self.delta).remaining(),
                keys == it.seq().unref(),
                keys.len() == total,
                new_vectors <= it.index(),
                new_vectors == outside_count(keys, it.index(), base),
        {
            proof {
                assert(keys[it.index()] == *ordinal);
            }
            if !self.base.vectors.contains_key(*ordinal) {
                new_vectors = new_vectors + 1;
            }
        }
        proof {
            let refs = spec_keys_iter(&self.delta).remaining();
            assert(refs.no_duplicates());
            assert(keys.no_duplicates()) by {
                assert forall|i: int, j: int| 0 <= i < keys.len() && 0 <= j < keys.len() && i != j implies keys[i] != keys[j] by {
                    assert(refs[i] != refs[j]);
                }
            }
            lemma_outside_count(keys, keys.len() as int, base);
            assert(keys.take(keys.len() as int) =~= keys);
            assert(keys.to_set() == self.delta@.dom());
        }
        bitmap_count_to_usize(treemap_len(&self.tombstones)).saturating_add(new_vectors)
    }

    /// Whether the overlay has grown enough that the base should be rebuilt
    /// (see `delta_compaction_limit`).
    pub fn should_compact(&self) -> (r: bool)
        ensures
            r == (clamp_usize(
                count_to_usize(self.spec_tombstones().len() as int) + self.spec_delta().dom().difference(
                    self.spec_base().vectors@.dom(),
                ).len(),
            ) >= spec_compaction_limit(self.spec_base().vectors.recorded_len() as int)),
    {
        self.overlay_len() >= delta_compaction_limit(self.base.vectors.len())
    }

    /// The overlay as it stands.
    pub open spec fn spec_overlay(&self) -> Overlay {
        Overlay {
            delta: self.spec_delta(),
            delta_ordinals: self.spec_delta_ordinals(),
            tombstones: self.spec_tombstones(),
        }
    }

    /// The vector the generation shows for `ordinal`: its changed vector,
    /// else its base vector unless that is hidden.
    pub fn visible(&self, ordinal: u64) -> (r: Option<&QuantizedVector>)
        ensures
            r == match visible_vector(self.spec_base().vectors@, self.spec_overlay(), ordinal) {
                Some(v) => Some(&v),
                None => None::<&QuantizedVector>,
            },
    {
        proof {
            broadcast use vstd::std_specs::btree::group_btree_axioms;
        }
        match self.delta.get(&ordinal) {
            Some(v) => Some(v),
            None => {
                if treemap_contains(&self.tombstones, ordinal) {
                    None
                } else {
                    self.base.vectors.get(ordinal)
                }
            },
        }
    }

    /// The next generation for document revision `revision`: the same
    /// shared base, and the overlay after `changes` (each an ordinal whose
    /// vector changed, with its new encoded vector or `None` where the
    /// document lost it), applied in order.
    pub fn apply_vector_changes(&self, revision: u64, changes: Vec<(u64, Option<QuantizedVector>)>) -> (r: VectorIndex)
        ensures
            r.spec_source_revision() == revision,
            r.spec_base() == self.spec_base(),
            r.spec_overlay() == overlay_after(self.spec_base().vectors@.dom(), self.spec_overlay(), changes@),
            forall|ordinal: u64|
                #[trigger] overlay_entry_follows_changes(
                    self.spec_base().vectors@.dom(),
                    self.spec_overlay(),
                    r.spec_overlay(),
                    changes@,
                    ordinal,
                ),
            self.spec_delta_ordinals() == self.spec_delta().dom() ==> r.spec_delta_ordinals() == r.spec_delta().dom(),
    {
        let ghost base_dom = self.base.vectors@.dom();
        let ghost all = changes@;
        let mut delta = self.delta.clone();
        let mut delta_ordinals = treemap_clone(&self.delta_ordinals);
        let mut tombstones = treemap_clone(&self.tombstones);
        let mut pending = changes;
        let mut reversed: Vec<(u64, Option<QuantizedVector>)> = Vec::new();
        while pending.len() > 0
            invariant
                reversed@.len() + pending@.len() == all.len(),
                pending@ == all.subrange(0, pending@.len() as int),
                forall|i: int| 0 <= i < reversed@.len() ==> #[trigger] reversed@[i] == all[all.len() - 1 - i],
            decreases pending@.len(),
        {
            let change = pending.pop().unwrap();
            reversed.push(change);
        }
        proof {
            assert(all.subrange(0, 0) =~= Seq::<(u64, Option<QuantizedVector>)>::empty());
        }
        while reversed.len() > 0
            invariant
                reversed@.len() <= all.len(),
                forall|i: int| 0 <= i < reversed@.len() ==> #[trigger] reversed@[i] == all[all.len() - 1 - i],
                base_dom == self.base.vectors@.dom(),
                (Overlay { delta: delta@, delta_ordinals: treemap_members(delta_ordinals), tombstones: treemap_members(tombstones) })
                    == overlay_after(base_dom, self.spec_overlay(), all.subrange(0, all.len() - reversed@.len())),
            decreases reversed@.len(),
        {
            let ghost done = all.len() - reversed@.len();
            let (ordinal, vector) = reversed.pop().unwrap();
            delta.remove(&ordinal);
            treemap_remove(&mut delta_ordinals, ordinal);
            if self.base.vectors.contains_key(ordinal) {
                treemap_insert(&mut tombstones, ordinal);
            } else {
                treemap_remove(&mut tombstones, ordinal);
            }
            let ghost stored = vector;
            match vector {
                Some(v) => {
                    delta.insert(ordinal, v);
                    treemap_insert(&mut delta_ordinals, ordinal);
                },
                None => {},
            }
            proof {
                assert(all.subrange(0, done + 1).drop_last() =~= all.subrange(0, done));
                assert(all.subrange(0, done + 1).last() == (ordinal, stored));
            }
        }
        proof {
            assert(all.subrange(0, all.len() as int) =~= all);
            assert forall|ordinal: u64|
                #[trigger] overlay_entry_follows_changes(base_dom, self.spec_overlay(), overlay_after(base_dom, self.spec_overlay(), all), all, ordinal) by {
                law_overlay_follows_last_change(base_dom, self.spec_overlay(), all, ordinal);
            }
            if self.spec_delta_ordinals() == self.spec_delta().dom() {
                law_changed_ordinals_match_the_delta(base_dom, self.spec_overlay(), all);
            }
        }
        VectorIndex {
            source_revision: revision,
            base: share(&self.base),
            delta,
            delta_ordinals,
            tombstones,
        }
    }

    /// The ANN candidates `base` merged with the overlay: hidden base
    /// entries dropped, the changed ordinals added, and both restricted to
    /// `allowed` when there is a filter.
    pub fn merge_candidates(&self, base: RoaringTreemap, allowed: Option<&RoaringTreemap>) -> (r: RoaringTreemap)
        ensures
            treemap_members(r) == match allowed {
                Some(a) => treemap_members(base).difference(self.spec_tombstones()).intersect(treemap_members(*a)).union(
                    self.spec_delta_ordinals().intersect(treemap_members(*a)),
                ),
                None => treemap_members(base).difference(self.spec_tombstones()).union(self.spec_delta_ordinals()),
            },
    {
        let mut ids = base;
        treemap_subtract(&mut ids, &self.tombstones);
        match allowed {
            Some(allowed) => {
                let mut kept = treemap_intersection(&ids, allowed);
                let delta = treemap_intersection(&self.delta_ordinals, allowed);
                treemap_union_with(&mut kept, &delta);
                kept
            },
            None => {
                treemap_union_with(&mut ids, &self.delta_ordinals);
                ids
            },
        }
    }
}

/// Whether a candidate set can answer a search: always without a filter,
/// and with one when it holds at least `min(topk, eligible_count)`
/// ordinals.
pub fn candidate_set_is_sufficient(ids: &RoaringTreemap, filtered: bool, topk: usize, eligible_count: usize) -> (r: bool)
    ensures
        r == (!filtered || count_to_usize(treemap_members(*ids).len() as int) >= if topk <= eligible_count {
            topk as int
        } else {
            eligible_count as int
        }),
{
    let needed = if topk <= eligible_count {
        topk
    } else {
        eligible_count
    };
    !filtered || bitmap_count_to_usize(treemap_len(ids)) >= needed
}

} // verus!
