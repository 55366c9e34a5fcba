//! The integer side of a Vamana graph: deterministic ordinal shuffling for
//! construction, search widths, payload size and the structural checks a
//! restored graph passes. The pruning factor `alpha` is an `f64` kept as its
//! bit pattern.

use super::hnsw::{
    add_layer_bytes, clamp_usize, layer_bytes, links_ok, links_valid, same_ordinals, ORDINAL_BYTES,
};
use super::ordinal_map::OrdinalMap;
use super::quantization::QuantizedVector;
use super::rotation::{spec_splitmix64, splitmix64};
use vstd::prelude::*;

verus! {

/// The Fisher-Yates shuffle driven by SplitMix64: for `index` from the last
/// position down to 1, the state advances once and position `index` swaps
/// with position `state % (index + 1)`.
pub open spec fn spec_shuffle(values: Seq<u64>, state: u64, index: int) -> Seq<u64>
    decreases index,
{
    if index <= 0 || index >= values.len() {
        values
    } else {
        let next = spec_splitmix64(state);
        let swap = (next % ((index + 1) as u64)) as int;
        let swapped = values.update(index, values[swap]).update(swap, values[index]);
        spec_shuffle(swapped, next, index - 1)
    }
}

/// Shuffles `values` deterministically from `seed`.
pub fn shuffled_ordinals(values: Vec<u64>, seed: u64) -> (r: Vec<u64>)
    ensures
        r@ == spec_shuffle(values@, seed, values@.len() - 1),
        r@.to_multiset() == values@.to_multiset(),
{
    let mut values = values;
    let ghost original = values@;
    let mut state = seed;
    let mut index = values.len();
    proof {
        if values@.len() == 0 {
        }
    }
    if index == 0 {
        return values;
    }
    let total = index;
    index = index - 1;
    while index > 0
        invariant
            index < values@.len(),
            total == values@.len(),
            values@.len() == original.len(),
            spec_shuffle(values@, state, index as int) == spec_shuffle(
                original,
                seed,
                original.len() - 1,
            ),
            values@.to_multiset() == original.to_multiset(),
        decreases index,
    {
        state = splitmix64(state);
        let bound = (index + 1) as u64;
        let swap = (state % bound) as usize;
        let ghost before = values@;
        let at_index = values[index];
        let at_swap = values[swap];
        values.set(index, at_swap);
        values.set(swap, at_index);
        proof {
            assert(values@ == before.update(index as int, before[swap as int]).update(
                swap as int,
                before[index as int],
            ));
            lemma_swap_multiset(before, index as int, swap as int);
        }
        index = index - 1;
    }
    values
}

/// Swapping two positions keeps the multiset of elements.
proof fn lemma_swap_multiset(s: Seq<u64>, i: int, j: int)
    requires
        0 <= i < s.len(),
        0 <= j < s.len(),
    ensures
        s.update(i, s[j]).update(j, s[i]).to_multiset() == s.to_multiset(),
{
    broadcast use vstd::seq_lib::group_to_multiset_ensures;

    let t = s.update(i, s[j]);
    assert(t.to_multiset() == s.to_multiset().remove(s[i]).insert(s[j]));
    assert(t.update(j, s[i]).to_multiset() == t.to_multiset().remove(t[j]).insert(s[i]));
    if i == j {
        assert(t.update(j, s[i]) =~= s);
    } else {
        assert(t[j] == s[j]);
        assert(s.to_multiset().remove(s[i]).insert(s[j]).remove(s[j]).insert(s[i])
            =~= s.to_multiset());
    }
}

/// Whether `bits` is the pattern of a finite `f64` of at least one.
pub open spec fn f64_bits_at_least_one(bits: u64) -> bool {
    0x3ff0_0000_0000_0000 <= bits < 0x7ff0_0000_0000_0000
}

/// A single-layer proximity graph with its entry node, default search list
/// size, degree bound and pruning factor (as `f64` bits).
pub struct VamanaIndex {
    graph: OrdinalMap<Vec<u64>>,
    entry_ordinal: Option<u64>,
    default_list_size: usize,
    max_degree: usize,
    alpha_bits: u64,
}

impl VamanaIndex {
    /// The adjacency map.
    pub closed spec fn spec_graph(&self) -> OrdinalMap<Vec<u64>> {
        self.graph
    }

    /// The node where every search starts, if the graph has one.
    pub closed spec fn spec_entry_ordinal(&self) -> Option<u64> {
        self.entry_ordinal
    }

    /// The search list size the graph was built with.
    pub closed spec fn spec_default_list_size(&self) -> usize {
        self.default_list_size
    }

    /// The degree bound the graph was built with.
    pub closed spec fn spec_max_degree(&self) -> usize {
        self.max_degree
    }

    /// The pruning factor's bit pattern.
    pub closed spec fn spec_alpha_bits(&self) -> u64 {
        self.alpha_bits
    }

    /// A graph with the given parts, as construction produces them.
    pub fn from_parts(
        graph: OrdinalMap<Vec<u64>>,
        entry_ordinal: Option<u64>,
        default_list_size: usize,
        max_degree: usize,
        alpha_bits: u64,
    ) -> (r: Self)
        ensures
            r.spec_graph() == graph,
            r.spec_entry_ordinal() == entry_ordinal,
            r.spec_default_list_size() == default_list_size,
            r.spec_max_degree() == max_degree,
            r.spec_alpha_bits() == alpha_bits,
    {
        VamanaIndex { graph, entry_ordinal, default_list_size, max_degree, alpha_bits }
    }

    /// The (ordinal, neighbours) pairs in ordinal order.
    pub fn nodes(&self) -> (r: Vec<(u64, &Vec<u64>)>)
        ensures
            r@.len() == crate::index::ordinal_map::ordered_ordinals(self.spec_graph().slots()).len(),
            forall|i: int|
                0 <= i < r@.len() ==> (#[trigger] r@[i]).0
                    == crate::index::ordinal_map::ordered_ordinals(self.spec_graph().slots())[i]
                    && *r@[i].1 == self.spec_graph()@[r@[i].0],
    {
        self.graph.iter()
    }

    /// The neighbours of `ordinal`, if it is a node.
    pub fn neighbors(&self, ordinal: u64) -> (r: Option<&Vec<u64>>)
        ensures
            self.spec_graph()@.contains_key(ordinal) ==> r == Some(&self.spec_graph()@[ordinal]),
            !self.spec_graph()@.contains_key(ordinal) ==> r is None,
    {
        self.graph.get(ordinal)
    }

    /// The entry node.
    pub fn entry_ordinal(&self) -> (r: Option<u64>)
        ensures
            r == self.spec_entry_ordinal(),
    {
        self.entry_ordinal
    }

    /// The default search list size.
    pub fn default_list_size(&self) -> (r: usize)
        ensures
            r == self.spec_default_list_size(),
    {
        self.default_list_size
    }

    /// The degree bound.
    pub fn max_degree(&self) -> (r: usize)
        ensures
            r == self.spec_max_degree(),
    {
        self.max_degree
    }

    /// The pruning factor's bit pattern.
    pub fn alpha_bits(&self) -> (r: u64)
        ensures
            r == self.spec_alpha_bits(),
    {
        self.alpha_bits
    }

    /// The search list size of a query: the requested size (or the
    /// default), at least `topk`, at most `vector_count`.
    pub fn candidate_limit(&self, requested_list_size: Option<usize>, topk: usize, vector_count: usize) -> (r: usize)
        ensures
            ({
                let size = match requested_list_size {
                    Some(size) => size,
                    None => self.spec_default_list_size(),
                };
                let wide = if size >= topk {
                    size
                } else {
                    topk
                };
                r == if wide <= vector_count {
                    wide
                } else {
                    vector_count
                }
            }),
    {
        let size = match requested_list_size {
            Some(size) => size,
            None => self.default_list_size,
        };
        let wide = if size >= topk {
            size
        } else {
            topk
        };
        if wide <= vector_count {
            wide
        } else {
            vector_count
        }
    }

    /// The bytes the graph payload takes: a byte per slot, an ordinal for
    /// the entry node and an ordinal per stored neighbour, saturating.
    pub fn estimated_payload_bytes(&self) -> (r: usize)
        ensures
            r == clamp_usize(
                (if self.spec_entry_ordinal() is Some {
                    ORDINAL_BYTES as int
                } else {
                    0
                }) + layer_bytes(self.spec_graph()),
            ),
    {
        let start: usize = match self.entry_ordinal {
            Some(_) => ORDINAL_BYTES,
            None => 0,
        };
        add_layer_bytes(start, &self.graph, Ghost(start as int))
    }

    /// Whether the graph is one that construction over `vectors` with the
    /// given parameters can have produced: see the clauses below.
    pub open spec fn spec_validates(
        &self,
        vectors: OrdinalMap<QuantizedVector>,
        max_degree: usize,
        list_size: usize,
        alpha_bits: u64,
    ) -> bool {
        let graph = self.spec_graph();
        &&& vectors.well_formed()
        &&& graph.slots().len() <= vectors.slots().len()
        &&& graph.well_formed()
        &&& self.spec_max_degree() == max_degree
        &&& self.spec_default_list_size() == list_size
        &&& self.spec_alpha_bits() == alpha_bits
        &&& max_degree != 0
        &&& list_size != 0
        &&& f64_bits_at_least_one(alpha_bits)
        &&& if vectors.recorded_len() == 0 {
            &&& self.spec_entry_ordinal() is None
            &&& graph.recorded_len() == 0
        } else {
            &&& self.spec_entry_ordinal() is Some
            &&& vectors@.contains_key(self.spec_entry_ordinal()->0)
            &&& graph@.dom() == vectors@.dom()
            &&& links_valid(graph@, max_degree as int)
        }
    }

    /// Whether the graph is structurally sound for `vectors`: consistent
    /// maps, the recorded parameters, a positive degree bound and list size,
    /// a finite pruning factor of at least one, an empty graph for no
    /// vectors, and otherwise an entry node among the vectors, a node per
    /// vector and at most `max_degree` distinct links per node to other
    /// nodes.
    pub fn validates(&self, vectors: &OrdinalMap<QuantizedVector>, max_degree: usize, list_size: usize, alpha_bits: u64) -> (r: bool)
        ensures
            r == self.spec_validates(*vectors, max_degree, list_size, alpha_bits),
    {
        if !vectors.validates(vectors.slot_count()) || !self.graph.validates(vectors.slot_count())
            || self.max_degree != max_degree || self.default_list_size != list_size
            || self.alpha_bits != alpha_bits || max_degree == 0 || list_size == 0 || !(
        0x3ff0_0000_0000_0000 <= alpha_bits && alpha_bits < 0x7ff0_0000_0000_0000) {
            return false;
        }
        if vectors.is_empty() {
            return self.entry_ordinal.is_none() && self.graph.is_empty();
        }
        let entry = match self.entry_ordinal {
            Some(entry) => entry,
            None => {
                return false;
            },
        };
        if !vectors.contains_key(entry) || !same_ordinals(&self.graph, vectors) {
            return false;
        }
        links_ok(&self.graph, max_degree)
    }
}

} // verus!
