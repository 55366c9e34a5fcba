//! The integer side of an IVF index: ordinal posting lists per centroid,
//! the probe window, candidate unions over a centroid ranking, and the
//! structural checks a restored index passes. Centroid coordinates are `f32`
//! bit patterns; training and ranking them is float work done elsewhere.

use crate::index::bitmap::{
    treemap_intersection, treemap_is_empty, treemap_len, treemap_members, treemap_new,
    treemap_encoded_len, treemap_insert, treemap_serialized_size, treemap_subtract, treemap_union_with,
    treemap_values,
};
use crate::index::limits::integer_sqrt_ceil;
use crate::index::ordinal_map::OrdinalMap;
use crate::index::rabitq::saturating_mul;
use crate::index::hnsw::clamp_usize;
use crate::index::quantization::{all_patterns_finite, f32_pattern_finite, QuantizedVector};
use roaring::RoaringTreemap;
use vstd::prelude::*;

verus! {

/// The member sets of `postings`.
pub open spec fn posting_sets(postings: Seq<RoaringTreemap>) -> Seq<Set<u64>> {
    Seq::new(postings.len(), |i: int| treemap_members(postings[i]))
}

/// How many of `sets` hold `ordinal`.
pub open spec fn assignment_count(sets: Seq<Set<u64>>, ordinal: u64) -> nat
    decreases sets.len(),
{
    if sets.len() == 0 {
        0
    } else {
        assignment_count(sets.drop_last(), ordinal) + if sets.last().contains(ordinal) {
            1nat
        } else {
            0nat
        }
    }
}

/// `root` is the smallest positive root whose square reaches `value`.
pub open spec fn is_sqrt_ceil(root: int, value: int) -> bool {
    root >= 1 && root * root >= value && (root == 1 || (root - 1) * (root - 1) < value)
}

/// The members of the postings of the first `count` ranked centroids.
pub open spec fn probed_union(sets: Seq<Set<u64>>, ranked: Seq<usize>, count: int) -> Set<u64>
    decreases count,
{
    if count <= 0 {
        Set::empty()
    } else {
        probed_union(sets, ranked, count - 1).union(sets[ranked[count - 1] as int])
    }
}

/// The eligible members (in `allowed`, not in `excluded`) of the postings
/// of the first `count` ranked centroids.
pub open spec fn filtered_union(
    sets: Seq<Set<u64>>,
    ranked: Seq<usize>,
    allowed: Set<u64>,
    excluded: Set<u64>,
    count: int,
) -> Set<u64>
    decreases count,
{
    if count <= 0 {
        Set::empty()
    } else {
        filtered_union(sets, ranked, allowed, excluded, count - 1).union(
            sets[ranked[count - 1] as int].intersect(allowed).difference(excluded),
        )
    }
}

/// The first rank at or after `rank` where probing stops: the ranking is
/// exhausted, or the initial window is probed and at least `minimum`
/// eligible candidates were found.
pub open spec fn probe_stop(
    sets: Seq<Set<u64>>,
    ranked: Seq<usize>,
    allowed: Set<u64>,
    excluded: Set<u64>,
    initial: int,
    minimum: int,
    rank: int,
) -> int
    decreases ranked.len() - rank,
{
    if rank >= ranked.len() {
        ranked.len() as int
    } else if rank >= initial && filtered_union(sets, ranked, allowed, excluded, rank).len()
        >= minimum {
        rank
    } else {
        probe_stop(sets, ranked, allowed, excluded, initial, minimum, rank + 1)
    }
}

/// Bytes of the centroid coordinates: four per coordinate.
pub open spec fn centroid_bytes(centroids: Seq<Vec<u32>>) -> int
    decreases centroids.len(),
{
    if centroids.len() == 0 {
        0
    } else {
        centroid_bytes(centroids.drop_last()) + 4 * centroids.last()@.len()
    }
}

proof fn lemma_count_step(sets: Seq<Set<u64>>, p: int, ordinal: u64)
    requires
        0 <= p < sets.len(),
    ensures
        assignment_count(sets.take(p + 1), ordinal) == assignment_count(sets.take(p), ordinal) + if sets[p].contains(ordinal) {
            1nat
        } else {
            0nat
        },
{
    assert(sets.take(p + 1).drop_last() =~= sets.take(p));
}

proof fn lemma_count_prefix(sets: Seq<Set<u64>>, n: int, ordinal: u64)
    requires
        0 <= n <= sets.len(),
    ensures
        assignment_count(sets.take(n), ordinal) <= assignment_count(sets, ordinal),
    decreases sets.len() - n,
{
    if n == sets.len() {
        assert(sets.take(n) =~= sets);
    } else {
        lemma_count_step(sets, n, ordinal);
        lemma_count_prefix(sets, n + 1, ordinal);
    }
}

/// The summed lengths of the portable encodings of `lists`.
pub open spec fn encoded_lists_len(lists: Seq<RoaringTreemap>) -> int
    decreases lists.len(),
{
    if lists.len() == 0 {
        0
    } else {
        encoded_lists_len(lists.drop_last()) + treemap_encoded_len(lists.last())
    }
}

proof fn lemma_encoded_lists_len_nonneg(lists: Seq<RoaringTreemap>)
    ensures
        encoded_lists_len(lists) >= 0,
    decreases lists.len(),
{
    if lists.len() > 0 {
        lemma_encoded_lists_len_nonneg(lists.drop_last());
    }
}

proof fn lemma_centroid_bytes_step_nonneg(centroids: Seq<Vec<u32>>)
    ensures
        centroid_bytes(centroids) >= 0,
    decreases centroids.len(),
{
    if centroids.len() > 0 {
        lemma_centroid_bytes_step_nonneg(centroids.drop_last());
    }
}

proof fn lemma_centroid_bytes_step(centroids: Seq<Vec<u32>>, c: int)
    requires
        0 <= c < centroids.len(),
    ensures
        centroid_bytes(centroids.take(c + 1)) == centroid_bytes(centroids.take(c)) + 4 * centroids[c]@.len(),
        centroid_bytes(centroids.take(c)) >= 0,
    decreases c,
{
    assert(centroids.take(c + 1).drop_last() =~= centroids.take(c));
    if c > 0 {
        lemma_centroid_bytes_step(centroids, c - 1);
    } else {
        assert(centroids.take(0) =~= Seq::<Vec<u32>>::empty());
    }
}

/// Filtered probing only ever yields eligible ordinals: every candidate is
/// allowed and not excluded, however many lists are probed.
pub proof fn law_filtered_candidates_are_eligible(
    sets: Seq<Set<u64>>,
    ranked: Seq<usize>,
    allowed: Set<u64>,
    excluded: Set<u64>,
    count: int,
)
    ensures
        filtered_union(sets, ranked, allowed, excluded, count).subset_of(allowed.difference(excluded)),
    decreases count,
{
    if count > 0 {
        law_filtered_candidates_are_eligible(sets, ranked, allowed, excluded, count - 1);
    }
}

/// An inverted-file index: a centroid per list and the ordinals assigned to
/// each list.
pub struct IvfIndex {
    centroids: Vec<Vec<u32>>,
    postings: Vec<RoaringTreemap>,
}

impl IvfIndex {
    /// The centroid coordinates (`f32` patterns).
    pub closed spec fn spec_centroids(&self) -> Seq<Vec<u32>> {
        self.centroids@
    }

    /// The posting lists, one per centroid.
    pub closed spec fn spec_postings(&self) -> Seq<RoaringTreemap> {
        self.postings@
    }

    /// An index with the given centroids and postings, as a decoded payload
    /// supplies them; `validates` tells whether they fit the vectors.
    pub fn from_parts(centroids: Vec<Vec<u32>>, postings: Vec<RoaringTreemap>) -> (r: Self)
        ensures
            r.spec_centroids() == centroids@,
            r.spec_postings() == postings@,
    {
        IvfIndex { centroids, postings }
    }

    /// An index over trained `centroids` whose lists hold each ordinal under
    /// its primary centroid and, where one was chosen, its secondary one.
    pub fn from_assignments(centroids: Vec<Vec<u32>>, assignments: &[(u64, usize, Option<usize>)]) -> (r: Self)
        requires
            forall|i: int|
                0 <= i < assignments@.len() ==> (#[trigger] assignments@[i]).1 < centroids@.len()
                    && (assignments@[i].2 matches Some(c) ==> c < centroids@.len()),
        ensures
            r.spec_centroids() == centroids@,
            r.spec_postings().len() == centroids@.len(),
            forall|c: int, ordinal: u64|
                0 <= c < centroids@.len() ==> (#[trigger] treemap_members(r.spec_postings()[c]).contains(ordinal)
                    <==> exists|i: int|
                    0 <= i < assignments@.len() && (#[trigger] assignments@[i]).0 == ordinal && (
                    assignments@[i].1 == c || assignments@[i].2 == Some(c as usize))),
    {
        let count = centroids.len();
        let mut postings: Vec<RoaringTreemap> = Vec::new();
        while postings.len() < count
            invariant
                postings@.len() <= count,
                forall|c: int| 0 <= c < postings@.len() ==> treemap_members(#[trigger] postings@[c]) == Set::<u64>::empty(),
            decreases count - postings@.len(),
        {
            postings.push(treemap_new());
        }
        let mut i: usize = 0;
        while i < assignments.len()
            invariant
                count == centroids@.len(),
                postings@.len() == count,
                i <= assignments@.len(),
                forall|k: int|
                    0 <= k < assignments@.len() ==> (#[trigger] assignments@[k]).1 < count
                        && (assignments@[k].2 matches Some(c) ==> c < count),
                forall|c: int, ordinal: u64|
                    0 <= c < count ==> (#[trigger] treemap_members(postings@[c]).contains(ordinal)
                        <==> exists|k: int|
                        0 <= k < i && (#[trigger] assignments@[k]).0 == ordinal && (assignments@[k].1 == c
                            || assignments@[k].2 == Some(c as usize))),
            decreases assignments@.len() - i,
        {
            let (ordinal, primary, secondary) = assignments[i];
            let ghost before = postings@;
            treemap_insert(&mut postings[primary], ordinal);
            let ghost middle = postings@;
            match secondary {
                Some(c) => {
                    treemap_insert(&mut postings[c], ordinal);
                },
                None => {},
            }
            proof {
                assert forall|c: int, o: u64| 0 <= c < count implies (#[trigger] treemap_members(postings@[c]).contains(o)
                    <==> exists|k: int|
                    0 <= k < i + 1 && (#[trigger] assignments@[k]).0 == o && (assignments@[k].1 == c
                        || assignments@[k].2 == Some(c as usize))) by {
                    if treemap_members(postings@[c]).contains(o) {
                        if !treemap_members(before[c]).contains(o) {
                            assert(assignments@[i as int].0 == o);
                        }
                    }
                    if exists|k: int|
                        0 <= k < i + 1 && (#[trigger] assignments@[k]).0 == o && (assignments@[k].1 == c
                            || assignments@[k].2 == Some(c as usize)) {
                        let k = choose|k: int|
                            0 <= k < i + 1 && (#[trigger] assignments@[k]).0 == o && (assignments@[k].1 == c
                                || assignments@[k].2 == Some(c as usize));
                        if k < i {
                            assert(treemap_members(before[c]).contains(o));
                        }
                    }
                }
            }
            i = i + 1;
        }
        IvfIndex { centroids, postings }
    }

    /// The centroid coordinates (`f32` patterns), for ranking against a
    /// query.
    pub fn centroids(&self) -> (r: &Vec<Vec<u32>>)
        ensures
            r@ == self.spec_centroids(),
    {
        &self.centroids
    }

    /// The number of centroids.
    pub fn centroid_count(&self) -> (r: usize)
        ensures
            r == self.spec_centroids().len(),
    {
        self.centroids.len()
    }

    /// How many lists a search probes: the requested count, or the ceiling
    /// of the square root of the centroid count, at least one and at most
    /// the centroid count.
    pub fn probe_count(&self, requested_nprobe: Option<usize>) -> (r: usize)
        ensures
            self.probe_count_is(requested_nprobe, r as int),
    {
        let default_nprobe = integer_sqrt_ceil(self.centroids.len());
        let wanted = match requested_nprobe {
            Some(n) => n,
            None => default_nprobe,
        };
        let at_least_one = if wanted >= 1 {
            wanted
        } else {
            1
        };
        let r = if at_least_one <= self.centroids.len() {
            at_least_one
        } else {
            self.centroids.len()
        };
        proof {
            let root = default_nprobe as int;
            assert(is_sqrt_ceil(root, self.spec_centroids().len() as int));
        }
        assert(self.probe_count_is(requested_nprobe, r as int));
        r
    }

    /// The ordinals of the lists of the first `probe_count` centroids of
    /// `ranked` (the centroids ordered by distance to the query); none when
    /// there are no centroids.
    pub fn candidates(&self, ranked: &[usize], requested_nprobe: Option<usize>) -> (r: RoaringTreemap)
        requires
            forall|k: int| 0 <= k < ranked@.len() ==> (#[trigger] ranked@[k] as int) < self.spec_postings().len(),
        ensures
            self.spec_centroids().len() == 0 ==> treemap_members(r) == Set::<u64>::empty(),
            self.spec_centroids().len() > 0 ==> exists|nprobe: int| {
                &&& #[trigger] self.probe_count_is(requested_nprobe, nprobe)
                &&& treemap_members(r) == probed_union(
                    posting_sets(self.spec_postings()),
                    ranked@,
                    if nprobe <= ranked@.len() {
                        nprobe
                    } else {
                        ranked@.len() as int
                    },
                )
            },
    {
        if self.centroids.len() == 0 {
            return treemap_new();
        }
        let nprobe = self.probe_count(requested_nprobe);
        let ghost sets = posting_sets(self.postings@);
        let limit = if nprobe <= ranked.len() {
            nprobe
        } else {
            ranked.len()
        };
        let mut candidates = treemap_new();
        let mut k: usize = 0;
        while k < limit
            invariant
                limit <= ranked@.len(),
                k <= limit,
                sets == posting_sets(self.postings@),
                forall|j: int| 0 <= j < ranked@.len() ==> (#[trigger] ranked@[j] as int) < self.postings@.len(),
                treemap_members(candidates) == probed_union(sets, ranked@, k as int),
            decreases limit - k,
        {
            treemap_union_with(&mut candidates, &self.postings[ranked[k]]);
            k = k + 1;
        }
        proof {
            assert(self.probe_count_is(requested_nprobe, nprobe as int));
        }
        candidates
    }

    /// The eligible ordinals (in `allowed`, not in `excluded`) of the lists
    /// of the centroids of `ranked` in order, probing at least the
    /// `probe_count` window and past it until at least `minimum_candidates`
    /// were found; none without centroids or allowed ordinals.
    pub fn filtered_candidates(
        &self,
        ranked: &[usize],
        requested_nprobe: Option<usize>,
        minimum_candidates: usize,
        allowed: &RoaringTreemap,
        excluded: &RoaringTreemap,
    ) -> (r: RoaringTreemap)
        requires
            forall|k: int| 0 <= k < ranked@.len() ==> (#[trigger] ranked@[k] as int) < self.spec_postings().len(),
        ensures
            self.spec_centroids().len() == 0 || treemap_members(*allowed) == Set::<u64>::empty()
                ==> treemap_members(r) == Set::<u64>::empty(),
            !(self.spec_centroids().len() == 0 || treemap_members(*allowed) == Set::<u64>::empty())
                ==> exists|initial: int| {
                &&& #[trigger] self.probe_count_is(requested_nprobe, initial)
                &&& treemap_members(r) == filtered_union(
                    posting_sets(self.spec_postings()),
                    ranked@,
                    treemap_members(*allowed),
                    treemap_members(*excluded),
                    probe_stop(
                        posting_sets(self.spec_postings()),
                        ranked@,
                        treemap_members(*allowed),
                        treemap_members(*excluded),
                        initial,
                        if minimum_candidates <= u64::MAX {
                            minimum_candidates as int
                        } else {
                            u64::MAX as int
                        },
                        0,
                    ),
                )
            },
    {
        if self.centroids.len() == 0 || treemap_is_empty(allowed) {
            return treemap_new();
        }
        let initial = self.probe_count(requested_nprobe);
        let minimum: u64 = if minimum_candidates as u128 <= u64::MAX as u128 {
            minimum_candidates as u64
        } else {
            u64::MAX
        };
        let ghost sets = posting_sets(self.postings@);
        let ghost a = treemap_members(*allowed);
        let ghost e = treemap_members(*excluded);
        let mut candidates = treemap_new();
        let mut rank: usize = 0;
        while rank < ranked.len()
            invariant_except_break
                rank <= ranked@.len(),
                sets == posting_sets(self.postings@),
                a == treemap_members(*allowed),
                e == treemap_members(*excluded),
                forall|j: int| 0 <= j < ranked@.len() ==> (#[trigger] ranked@[j] as int) < self.postings@.len(),
                treemap_members(candidates) == filtered_union(sets, ranked@, a, e, rank as int),
                probe_stop(sets, ranked@, a, e, initial as int, minimum as int, 0) == probe_stop(
                    sets,
                    ranked@,
                    a,
                    e,
                    initial as int,
                    minimum as int,
                    rank as int,
                ),
            ensures
                treemap_members(candidates) == filtered_union(
                    sets,
                    ranked@,
                    a,
                    e,
                    probe_stop(sets, ranked@, a, e, initial as int, minimum as int, 0),
                ),
            decreases ranked@.len() - rank,
        {
            if rank >= initial && treemap_len(&candidates) >= minimum {
                break;
            }
            let mut posting_candidates = treemap_intersection(&self.postings[ranked[rank]], allowed);
            treemap_subtract(&mut posting_candidates, excluded);
            treemap_union_with(&mut candidates, &posting_candidates);
            rank = rank + 1;
        }
        proof {
            assert(self.probe_count_is(requested_nprobe, initial as int));
        }
        candidates
    }

    /// Whether the index fits `vectors`: no lists for no vectors, and
    /// otherwise one centroid and list per cluster (`n_list`, at most one per
    /// vector, at least one), centroids of finite `dimension`-long
    /// coordinates, lists holding only vector ordinals, and every vector in
    /// exactly one list (two with SOAR spilling over more than one cluster).
    pub open spec fn spec_validates(
        &self,
        vectors: OrdinalMap<QuantizedVector>,
        dimension: usize,
        n_list: usize,
        use_soar: bool,
    ) -> bool {
        let centroids = self.spec_centroids();
        let postings = self.spec_postings();
        if vectors.recorded_len() == 0 {
            centroids.len() == 0 && postings.len() == 0
        } else {
            let fitted = if n_list <= vectors.recorded_len() {
                n_list as int
            } else {
                vectors.recorded_len() as int
            };
            let expected = if fitted >= 1 {
                fitted
            } else {
                1
            };
            let copies: nat = if use_soar && expected > 1 {
                2
            } else {
                1
            };
            &&& centroids.len() == expected
            &&& postings.len() == expected
            &&& forall|c: int|
                0 <= c < centroids.len() ==> (#[trigger] centroids[c])@.len() == dimension && forall|i: int|
                    0 <= i < centroids[c]@.len() ==> f32_pattern_finite(#[trigger] centroids[c]@[i])
            &&& forall|p: int, ordinal: u64|
                0 <= p < postings.len() && #[trigger] treemap_members(postings[p]).contains(ordinal)
                    ==> vectors@.contains_key(ordinal)
            &&& forall|ordinal: u64|
                #[trigger] vectors@.contains_key(ordinal) ==> assignment_count(posting_sets(postings), ordinal)
                    == copies
        }
    }

    /// Whether the index fits `vectors` (see `spec_validates`).
    pub fn validates(&self, vectors: &OrdinalMap<QuantizedVector>, dimension: usize, n_list: usize, use_soar: bool) -> (r: bool)
        ensures
            r == self.spec_validates(*vectors, dimension, n_list, use_soar),
    {
        if vectors.is_empty() {
            return self.centroids.len() == 0 && self.postings.len() == 0;
        }
        let fitted = if n_list <= vectors.len() {
            n_list
        } else {
            vectors.len()
        };
        let expected = if fitted >= 1 {
            fitted
        } else {
            1
        };
        if self.centroids.len() != expected || self.postings.len() != expected {
            return false;
        }
        let mut c: usize = 0;
        while c < self.centroids.len()
            invariant
                c <= self.centroids@.len(),
                forall|j: int|
                    0 <= j < c ==> (#[trigger] self.centroids@[j])@.len() == dimension && forall|i: int|
                        0 <= i < self.centroids@[j]@.len() ==> f32_pattern_finite(#[trigger] self.centroids@[j]@[i]),
            decreases self.centroids@.len() - c,
        {
            let centroid = &self.centroids[c];
            if centroid.len() != dimension || !all_patterns_finite(centroid) {
                return false;
            }
            c = c + 1;
        }
        let copies: u8 = if use_soar && expected > 1 {
            2
        } else {
            1
        };
        let slot_count = vectors.slot_count();
        let ghost sets = posting_sets(self.postings@);
        let mut assignments: Vec<u8> = Vec::new();
        while assignments.len() < slot_count
            invariant
                assignments@.len() <= slot_count,
                forall|i: int| 0 <= i < assignments@.len() ==> assignments@[i] == 0,
            decreases slot_count - assignments@.len(),
        {
            assignments.push(0);
        }
        proof {
            assert(sets.take(0) =~= Seq::<Set<u64>>::empty());
        }
        let mut p: usize = 0;
        while p < self.postings.len()
            invariant
                p <= self.postings@.len(),
                sets == posting_sets(self.postings@),
                slot_count == vectors.slots().len(),
                assignments@.len() == slot_count,
                1 <= copies <= 2,
                vectors.recorded_len() != 0,
                expected == (if (if n_list <= vectors.recorded_len() {
                    n_list as int
                } else {
                    vectors.recorded_len() as int
                }) >= 1 {
                    if n_list <= vectors.recorded_len() {
                        n_list as int
                    } else {
                        vectors.recorded_len() as int
                    }
                } else {
                    1
                }),
                copies == (if use_soar && expected > 1 {
                    2u8
                } else {
                    1u8
                }),
                self.centroids@.len() == expected,
                self.postings@.len() == expected,
                forall|j: int|
                    0 <= j < self.centroids@.len() ==> (#[trigger] self.centroids@[j])@.len() == dimension && forall|i: int|
                        0 <= i < self.centroids@[j]@.len() ==> f32_pattern_finite(#[trigger] self.centroids@[j]@[i]),
                forall|i: int|
                    0 <= i < slot_count ==> #[trigger] assignments@[i] == assignment_count(sets.take(p as int), i as u64)
                        && assignments@[i] <= copies,
                forall|q: int, ordinal: u64|
                    0 <= q < p && #[trigger] sets[q].contains(ordinal) ==> vectors@.contains_key(ordinal),
            decreases self.postings@.len() - p,
        {
            let values = treemap_values(&self.postings[p]);
            let ghost members = sets[p as int];
            proof {
                assert(values@.take(0) =~= Seq::<u64>::empty());
            }
            let mut j: usize = 0;
            while j < values.len()
                invariant
                    j <= values@.len(),
                    p < self.postings@.len(),
                    sets == posting_sets(self.postings@),
                    members == sets[p as int],
                    forall|x: int, y: int| 0 <= x < y < values@.len() ==> values@[x] < values@[y],
                    forall|x: int| 0 <= x < values@.len() ==> members.contains(#[trigger] values@[x]),
                    slot_count == vectors.slots().len(),
                    assignments@.len() == slot_count,
                    1 <= copies <= 2,
                    vectors.recorded_len() != 0,
                    expected == (if (if n_list <= vectors.recorded_len() {
                        n_list as int
                    } else {
                        vectors.recorded_len() as int
                    }) >= 1 {
                        if n_list <= vectors.recorded_len() {
                            n_list as int
                        } else {
                            vectors.recorded_len() as int
                        }
                    } else {
                        1
                    }),
                    copies == (if use_soar && expected > 1 {
                        2u8
                    } else {
                        1u8
                    }),
                    self.centroids@.len() == expected,
                    self.postings@.len() == expected,
                    forall|j: int|
                        0 <= j < self.centroids@.len() ==> (#[trigger] self.centroids@[j])@.len() == dimension && forall|i: int|
                            0 <= i < self.centroids@[j]@.len() ==> f32_pattern_finite(#[trigger] self.centroids@[j]@[i]),
                    forall|i: int|
                        0 <= i < slot_count ==> #[trigger] assignments@[i] == assignment_count(sets.take(p as int), i as u64)
                            + if values@.take(j as int).contains(i as u64) {
                            1nat
                        } else {
                            0nat
                        } && assignments@[i] <= copies,
                    forall|x: int| 0 <= x < j ==> vectors@.contains_key(#[trigger] values@[x]),
                decreases values@.len() - j,
            {
                let ordinal = values[j];
                if ordinal >= slot_count as u64 {
                    proof {
                        vectors.lemma_view();
                    }
                    return false;
                }
                if !vectors.contains_key(ordinal) {
                    return false;
                }
                let index = ordinal as usize;
                proof {
                    assert(!values@.take(j as int).contains(ordinal)) by {
                        let prev = values@.take(j as int);
                        if prev.contains(ordinal) {
                            let x = choose|x: int| 0 <= x < prev.len() && prev[x] == ordinal;
                            assert(values@[x] < values@[j as int]);
                        }
                    }
                    let prev = values@.take(j as int);
                    let next = values@.take(j + 1);
                    assert forall|i: u64| #[trigger] next.contains(i) <==> (prev.contains(i) || i == ordinal) by {
                        if next.contains(i) {
                            let x = choose|x: int| 0 <= x < next.len() && next[x] == i;
                            if x < j {
                                assert(prev[x] == i);
                            }
                        }
                        if prev.contains(i) {
                            let x = choose|x: int| 0 <= x < prev.len() && prev[x] == i;
                            assert(next[x] == i);
                        }
                        if i == ordinal {
                            assert(next[j as int] == i);
                        }
                    }
                }
                let count = assignments[index] + 1;
                if count > copies {
                    proof {
                        lemma_count_step(sets, p as int, ordinal);
                        lemma_count_prefix(sets, p + 1, ordinal);
                        assert(sets.take(self.postings@.len() as int) =~= sets);
                        assert(posting_sets(self.postings@) == sets);
                    }
                    return false;
                }
                assignments.set(index, count);
                j = j + 1;
            }
            proof {
                assert forall|i: int| 0 <= i < slot_count implies #[trigger] assignments@[i] == assignment_count(sets.take(p + 1), i as u64) by {
                    lemma_count_step(sets, p as int, i as u64);
                    assert(values@.take(values@.len() as int) =~= values@);
                    if members.contains(i as u64) {
                        assert(values@.contains(i as u64));
                    }
                    if values@.contains(i as u64) {
                        let x = choose|x: int| 0 <= x < values@.len() && values@[x] == i as u64;
                        assert(members.contains(values@[x]));
                    }
                }
                assert forall|q: int, ordinal: u64| 0 <= q < p + 1 && #[trigger] sets[q].contains(ordinal) implies vectors@.contains_key(ordinal) by {
                    if q == p {
                        assert(values@.contains(ordinal));
                        let x = choose|x: int| 0 <= x < values@.len() && values@[x] == ordinal;
                        assert(vectors@.contains_key(values@[x]));
                    }
                }
            }
            p = p + 1;
        }
        proof {
            assert(sets.take(self.postings@.len() as int) =~= sets);
        }
        let keys = vectors.keys();
        let mut k: usize = 0;
        while k < keys.len()
            invariant
                k <= keys@.len(),
                forall|o: u64| #[trigger] keys@.contains(o) <==> vectors@.contains_key(o),
                sets == posting_sets(self.postings@),
                slot_count == vectors.slots().len(),
                assignments@.len() == slot_count,
                vectors.recorded_len() != 0,
                expected == (if (if n_list <= vectors.recorded_len() {
                    n_list as int
                } else {
                    vectors.recorded_len() as int
                }) >= 1 {
                    if n_list <= vectors.recorded_len() {
                        n_list as int
                    } else {
                        vectors.recorded_len() as int
                    }
                } else {
                    1
                }),
                copies == (if use_soar && expected > 1 {
                    2u8
                } else {
                    1u8
                }),
                self.centroids@.len() == expected,
                self.postings@.len() == expected,
                forall|j: int|
                    0 <= j < self.centroids@.len() ==> (#[trigger] self.centroids@[j])@.len() == dimension && forall|i: int|
                        0 <= i < self.centroids@[j]@.len() ==> f32_pattern_finite(#[trigger] self.centroids@[j]@[i]),
                forall|q: int, ordinal: u64|
                    0 <= q < self.postings@.len() && #[trigger] sets[q].contains(ordinal) ==> vectors@.contains_key(ordinal),
                forall|i: int| 0 <= i < slot_count ==> #[trigger] assignments@[i] == assignment_count(sets, i as u64),
                forall|x: int| 0 <= x < k ==> assignment_count(sets, #[trigger] keys@[x]) == copies as nat,
            decreases keys@.len() - k,
        {
            let ordinal = keys[k];
            proof {
                assert(keys@.contains(ordinal));
                vectors.lemma_view();
            }
            let index = ordinal as usize;
            if assignments[index] != copies {
                return false;
            }
            k = k + 1;
        }
        proof {
            assert forall|o: u64| #[trigger] vectors@.contains_key(o) implies assignment_count(sets, o) == copies as nat by {
                assert(keys@.contains(o));
                let x = choose|x: int| 0 <= x < keys@.len() && keys@[x] == o;
                assert(assignment_count(sets, keys@[x]) == copies as nat);
            }
            assert forall|q: int, ordinal: u64| 0 <= q < self.postings@.len() && #[trigger] treemap_members(self.postings@[q]).contains(ordinal) implies vectors@.contains_key(ordinal) by {
                assert(sets[q].contains(ordinal));
            }
        }
        true
    }

    /// The payload size: four bytes per centroid coordinate plus the length
    /// of the portable encoding of each list, saturating.
    pub fn estimated_payload_bytes(&self) -> (r: usize)
        ensures
            r == clamp_usize(centroid_bytes(self.spec_centroids()) + encoded_lists_len(self.spec_postings())),
    {
        let mut centroids: usize = 0;
        let mut c: usize = 0;
        proof {
            assert(self.centroids@.take(0) =~= Seq::<Vec<u32>>::empty());
        }
        while c < self.centroids.len()
            invariant
                c <= self.centroids@.len(),
                centroids == clamp_usize(centroid_bytes(self.centroids@.take(c as int))),
            decreases self.centroids@.len() - c,
        {
            proof {
                lemma_centroid_bytes_step(self.centroids@, c as int);
            }
            centroids = centroids.saturating_add(saturating_mul(self.centroids[c].len(), 4));
            c = c + 1;
        }
        proof {
            assert(self.centroids@.take(self.centroids@.len() as int) =~= self.centroids@);
            lemma_centroid_bytes_step_nonneg(self.centroids@);
        }
        let mut postings: usize = 0;
        let mut p: usize = 0;
        proof {
            assert(self.postings@.take(0) =~= Seq::<RoaringTreemap>::empty());
        }
        while p < self.postings.len()
            invariant
                p <= self.postings@.len(),
                postings == clamp_usize(encoded_lists_len(self.postings@.take(p as int))),
            decreases self.postings@.len() - p,
        {
            proof {
                assert(self.postings@.take(p + 1).drop_last() =~= self.postings@.take(p as int));
                lemma_encoded_lists_len_nonneg(self.postings@.take(p as int));
            }
            postings = postings.saturating_add(treemap_serialized_size(&self.postings[p]));
            p = p + 1;
        }
        proof {
            assert(self.postings@.take(self.postings@.len() as int) =~= self.postings@);
            lemma_encoded_lists_len_nonneg(self.postings@);
        }
        centroids.saturating_add(postings)
    }

    /// `count` is what `probe_count` returns for `requested_nprobe`.
    pub open spec fn probe_count_is(&self, requested_nprobe: Option<usize>, count: int) -> bool {
        exists|root: int|
            #![trigger is_sqrt_ceil(root, self.spec_centroids().len() as int)]
            is_sqrt_ceil(root, self.spec_centroids().len() as int) && {
                let wanted = match requested_nprobe {
                    Some(n) => n as int,
                    None => root,
                };
                let at_least_one = if wanted >= 1 {
                    wanted
                } else {
                    1
                };
                count == if at_least_one <= self.spec_centroids().len() {
                    at_least_one
                } else {
                    self.spec_centroids().len() as int
                }
            }
    }
}

} // verus!
