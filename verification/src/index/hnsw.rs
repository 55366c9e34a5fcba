//! The integer side of a layered HNSW graph: its search width, the size of
//! its adjacency payload and the structural checks a restored graph passes.

use crate::index::ordinal_map::{ordered_ordinals, OrdinalMap};
use crate::index::quantization::QuantizedVector;
use crate::index::rabitq::saturating_mul;
use vstd::prelude::*;

verus! {

/// Bytes of one stored ordinal.
pub const ORDINAL_BYTES: usize = 8;

/// `x` capped at `usize::MAX`, the value a chain of saturating additions of
/// non-negative terms reaches.
pub open spec fn clamp_usize(x: int) -> int {
    if x > usize::MAX {
        usize::MAX as int
    } else {
        x
    }
}

/// Bytes of the neighbour lists stored for `ordinals` in `adjacency`.
pub open spec fn neighbor_bytes(adjacency: Map<u64, Vec<u64>>, ordinals: Seq<u64>) -> int
    decreases ordinals.len(),
{
    if ordinals.len() == 0 {
        0
    } else {
        neighbor_bytes(adjacency, ordinals.drop_last()) + ORDINAL_BYTES * adjacency[ordinals.last()].len()
    }
}

/// Bytes of one layer: a byte per slot and the neighbour lists of its
/// occupied slots.
pub open spec fn layer_bytes(layer: OrdinalMap<Vec<u64>>) -> int {
    layer.slots().len() + neighbor_bytes(layer@, ordered_ordinals(layer.slots()))
}

/// Bytes of all `layers`.
pub open spec fn layers_bytes(layers: Seq<OrdinalMap<Vec<u64>>>) -> int
    decreases layers.len(),
{
    if layers.len() == 0 {
        0
    } else {
        layers_bytes(layers.drop_last()) + layer_bytes(layers.last())
    }
}

proof fn lemma_neighbor_bytes_nonneg(adjacency: Map<u64, Vec<u64>>, ordinals: Seq<u64>)
    ensures
        neighbor_bytes(adjacency, ordinals) >= 0,
    decreases ordinals.len(),
{
    if ordinals.len() > 0 {
        lemma_neighbor_bytes_nonneg(adjacency, ordinals.drop_last());
    }
}

proof fn lemma_layers_bytes_nonneg(layers: Seq<OrdinalMap<Vec<u64>>>)
    ensures
        layers_bytes(layers) >= 0,
    decreases layers.len(),
{
    if layers.len() > 0 {
        lemma_layers_bytes_nonneg(layers.drop_last());
        lemma_neighbor_bytes_nonneg(layers.last()@, ordered_ordinals(layers.last().slots()));
    }
}

/// Adding a capped term to a capped total caps the exact sum.
proof fn lemma_clamp_add(a: int, b: int)
    requires
        a >= 0,
        b >= 0,
    ensures
        clamp_usize(clamp_usize(a) + clamp_usize(b)) == clamp_usize(a + b),
{
}

/// `total` plus the bytes of `layer`, saturating: the slot count, then the
/// neighbour lists in ordinal order.
pub(crate) fn add_layer_bytes(total: usize, layer: &OrdinalMap<Vec<u64>>, Ghost(before): Ghost<int>) -> (r: usize)
    requires
        before >= 0,
        total == clamp_usize(before),
    ensures
        r == clamp_usize(before + layer_bytes(*layer)),
{
    let mut total = total;
    let ghost ords = ordered_ordinals(layer.slots());
    proof {
        lemma_clamp_add(before, layer.slots().len() as int);
    }
    total = total.saturating_add(layer.slot_count());
    let entries = layer.iter();
    proof {
        assert(ords.take(0) =~= Seq::<u64>::empty());
    }
    let mut j: usize = 0;
    while j < entries.len()
        invariant
            j <= entries@.len(),
            entries@.len() == ords.len(),
            ords == ordered_ordinals(layer.slots()),
            forall|i: int|
                0 <= i < entries@.len() ==> (#[trigger] entries@[i]).0 == ords[i]
                    && *entries@[i].1 == layer@[entries@[i].0],
            before >= 0,
            total == clamp_usize(
                before + layer.slots().len() + neighbor_bytes(layer@, ords.take(j as int)),
            ),
        decreases entries.len() - j,
    {
        let neighbors = entries[j].1;
        let bytes = saturating_mul(neighbors.len(), ORDINAL_BYTES);
        proof {
            let prefix = before + layer.slots().len() + neighbor_bytes(
                layer@,
                ords.take(j as int),
            );
            lemma_neighbor_bytes_nonneg(layer@, ords.take(j as int));
            lemma_clamp_add(prefix, neighbors.len() * ORDINAL_BYTES);
            assert(ords.take(j + 1).drop_last() =~= ords.take(j as int));
            assert(entries@[j as int].0 == ords[j as int]);
        }
        total = total.saturating_add(bytes);
        j = j + 1;
    }
    proof {
        assert(ords.take(ords.len() as int) =~= ords);
    }
    total
}

/// A layered proximity graph: layer zero holds every node, and each later
/// layer a sparser subset; `default_ef` is the search width it was built
/// with.
pub struct HnswIndex {
    entry_ordinal: Option<u64>,
    layers: Vec<OrdinalMap<Vec<u64>>>,
    default_ef: usize,
}

impl HnswIndex {
    /// The node where every search starts, if the graph has one.
    pub closed spec fn spec_entry_ordinal(&self) -> Option<u64> {
        self.entry_ordinal
    }

    /// The adjacency maps, base layer first.
    pub closed spec fn spec_layers(&self) -> Seq<OrdinalMap<Vec<u64>>> {
        self.layers@
    }

    /// The search width the graph was built with.
    pub closed spec fn spec_default_ef(&self) -> usize {
        self.default_ef
    }

    /// A graph with the given entry node, layers and default search width,
    /// as construction produces them.
    pub fn from_parts(
        entry_ordinal: Option<u64>,
        layers: Vec<OrdinalMap<Vec<u64>>>,
        default_ef: usize,
    ) -> (r: Self)
        ensures
            r.spec_entry_ordinal() == entry_ordinal,
            r.spec_layers() == layers@,
            r.spec_default_ef() == default_ef,
    {
        HnswIndex { entry_ordinal, layers, default_ef }
    }

    /// The candidate-list width of a search: the requested width (or the
    /// default), at least `topk`, at most `vector_count`.
    pub fn candidate_limit(&self, requested_ef: Option<usize>, topk: usize, vector_count: usize) -> (r:
        usize)
        ensures
            ({
                let ef = match requested_ef {
                    Some(ef) => ef,
                    None => self.spec_default_ef(),
                };
                let wide = if ef >= topk {
                    ef
                } else {
                    topk
                };
                r == if wide <= vector_count {
                    wide
                } else {
                    vector_count
                }
            }),
    {
        let ef = match requested_ef {
            Some(ef) => ef,
            None => self.default_ef,
        };
        let wide = if ef >= topk {
            ef
        } else {
            topk
        };
        if wide <= vector_count {
            wide
        } else {
            vector_count
        }
    }

    /// The bytes the graph payload takes: an ordinal for the entry node,
    /// a byte per slot of each layer and an ordinal per stored neighbour,
    /// saturating at `usize::MAX`.
    pub fn estimated_payload_bytes(&self) -> (r: usize)
        ensures
            r == clamp_usize(
                (if self.spec_entry_ordinal() is Some {
                    ORDINAL_BYTES as int
                } else {
                    0
                }) + layers_bytes(self.spec_layers()),
            ),
    {
        let ghost start: int = if self.entry_ordinal is Some {
            ORDINAL_BYTES as int
        } else {
            0
        };
        let mut total: usize = match self.entry_ordinal {
            Some(_) => ORDINAL_BYTES,
            None => 0,
        };
        proof {
            assert(self.layers@.take(0) =~= Seq::<OrdinalMap<Vec<u64>>>::empty());
        }
        let mut l: usize = 0;
        while l < self.layers.len()
            invariant
                l <= self.layers@.len(),
                start == (if self.entry_ordinal is Some {
                    ORDINAL_BYTES as int
                } else {
                    0
                }),
                total == clamp_usize(start + layers_bytes(self.layers@.take(l as int))),
            decreases self.layers.len() - l,
        {
            let layer = &self.layers[l];
            proof {
                lemma_layers_bytes_nonneg(self.layers@.take(l as int));
            }
            total = add_layer_bytes(total, layer, Ghost(start + layers_bytes(self.layers@.take(l as int))));
            proof {
                assert(self.layers@.take(l + 1).drop_last() =~= self.layers@.take(l as int));
            }
            l = l + 1;
        }
        proof {
            assert(self.layers@.take(self.layers@.len() as int) =~= self.layers@);
        }
        total
    }
}

/// The mixed seed behind an HNSW node's level: the ordinal plus one times
/// the golden-ratio constant, through the SplitMix64 finalizer.
pub open spec fn spec_level_seed(ordinal: u64) -> u64 {
    let a = ordinal.wrapping_add(1).wrapping_mul(0x9e37_79b9_7f4a_7c15);
    let b = (a ^ (a >> 30u64)).wrapping_mul(0xbf58_476d_1ce4_e5b9);
    let c = (b ^ (b >> 27u64)).wrapping_mul(0x94d0_49bb_1331_11eb);
    c ^ (c >> 31u64)
}

/// The deterministic seed of the level of node `ordinal` (an ordinal past
/// `u64::MAX` counts as `u64::MAX`).
pub fn level_seed(ordinal: usize) -> (r: u64)
    ensures
        r == spec_level_seed(if ordinal as int <= u64::MAX {
            ordinal as u64
        } else {
            u64::MAX
        }),
{
    let ordinal: u64 = if ordinal as u128 <= u64::MAX as u128 {
        ordinal as u64
    } else {
        u64::MAX
    };
    let mut seed = ordinal.wrapping_add(1).wrapping_mul(0x9e37_79b9_7f4a_7c15);
    seed = (seed ^ (seed >> 30)).wrapping_mul(0xbf58_476d_1ce4_e5b9);
    seed = (seed ^ (seed >> 27)).wrapping_mul(0x94d0_49bb_1331_11eb);
    seed ^ (seed >> 31)
}

/// The most layers a graph has: levels run from zero to thirty-two.
pub const MAX_LAYER_COUNT: usize = 33;

/// The most links a node keeps on layer `layer` of a graph built with `m`:
/// twice `m` (saturating) on the base layer, `m` above it, and at least one.
pub open spec fn layer_degree(layer: int, m: int) -> int {
    let degree = if layer == 0 {
        clamp_usize(2 * m)
    } else {
        m
    };
    if degree >= 1 {
        degree
    } else {
        1
    }
}

/// Node `ordinal` of `layer` keeps at most `degree` distinct links, none to
/// itself and each to a node of the same layer.
pub open spec fn neighbors_valid(layer: Map<u64, Vec<u64>>, ordinal: u64, links: Seq<u64>, degree: int) -> bool {
    &&& links.len() <= degree
    &&& forall|i: int| 0 <= i < links.len() ==> #[trigger] links[i] != ordinal && layer.contains_key(links[i])
    &&& links.no_duplicates()
}

/// Every node of `layer` has valid links.
pub open spec fn links_valid(layer: Map<u64, Vec<u64>>, degree: int) -> bool {
    forall|ordinal: u64| #[trigger] layer.contains_key(ordinal) ==> neighbors_valid(layer, ordinal, layer[ordinal]@, degree)
}

/// Layer `l` of `layers` has at most `max_slots` slots and a consistent
/// length, its nodes are nodes of the layer below, and its links are valid.
pub open spec fn layer_valid(layers: Seq<OrdinalMap<Vec<u64>>>, l: int, max_slots: int, m: int) -> bool {
    &&& layers[l].slots().len() <= max_slots
    &&& layers[l].well_formed()
    &&& l > 0 ==> forall|ordinal: u64| #[trigger] layers[l]@.contains_key(ordinal) ==> layers[l - 1]@.contains_key(ordinal)
    &&& links_valid(layers[l]@, layer_degree(l, m))
}

/// Whether two strictly increasing sequences hold the same values.
proof fn lemma_sorted_same_values(a: Seq<u64>, b: Seq<u64>)
    requires
        forall|i: int, j: int| 0 <= i < j < a.len() ==> a[i] < a[j],
        forall|i: int, j: int| 0 <= i < j < b.len() ==> b[i] < b[j],
        forall|k: u64| a.contains(k) <==> b.contains(k),
    ensures
        a == b,
    decreases a.len() + b.len(),
{
    if a.len() == 0 {
        if b.len() > 0 {
            assert(b.contains(b[0]));
        }
        assert(a =~= b);
    } else if b.len() == 0 {
        assert(a.contains(a[0]));
    } else {
        assert(a.contains(a[0]));
        assert(b.contains(b[0]));
        let ia = choose|i: int| 0 <= i < a.len() && a[i] == b[0];
        let ib = choose|i: int| 0 <= i < b.len() && b[i] == a[0];
        assert(a[0] <= a[ia]);
        assert(b[0] <= b[ib]);
        assert(a[0] == b[0]);
        let ra = a.drop_first();
        let rb = b.drop_first();
        assert forall|k: u64| ra.contains(k) <==> rb.contains(k) by {
            if ra.contains(k) {
                let i = choose|i: int| 0 <= i < ra.len() && ra[i] == k;
                assert(a[i + 1] == k);
                assert(a.contains(k));
                let j = choose|j: int| 0 <= j < b.len() && b[j] == k;
                assert(j != 0);
                assert(rb[j - 1] == k);
            }
            if rb.contains(k) {
                let i = choose|i: int| 0 <= i < rb.len() && rb[i] == k;
                assert(b[i + 1] == k);
                assert(b.contains(k));
                let j = choose|j: int| 0 <= j < a.len() && a[j] == k;
                assert(j != 0);
                assert(ra[j - 1] == k);
            }
        }
        lemma_sorted_same_values(ra, rb);
        assert(a =~= seq![a[0]] + ra);
        assert(b =~= seq![b[0]] + rb);
    }
}

/// Whether the links of `ordinal` are valid (see `neighbors_valid`).
fn neighbors_ok(layer: &OrdinalMap<Vec<u64>>, ordinal: u64, links: &Vec<u64>, degree: usize) -> (r: bool)
    ensures
        r == neighbors_valid(layer@, ordinal, links@, degree as int),
{
    if links.len() > degree {
        return false;
    }
    let mut i: usize = 0;
    while i < links.len()
        invariant
            i <= links@.len(),
            forall|k: int| 0 <= k < i ==> #[trigger] links@[k] != ordinal && layer@.contains_key(links@[k]),
        decreases links@.len() - i,
    {
        if links[i] == ordinal || !layer.contains_key(links[i]) {
            assert(!(links@[i as int] != ordinal && layer@.contains_key(links@[i as int])));
            return false;
        }
        i = i + 1;
    }
    let mut j: usize = 0;
    while j < links.len()
        invariant
            j <= links@.len(),
            forall|a: int, b: int| 0 <= a < b < j ==> links@[a] != links@[b],
        decreases links@.len() - j,
    {
        let mut k: usize = 0;
        while k < j
            invariant
                k <= j < links@.len(),
                forall|a: int| 0 <= a < k ==> links@[a] != links@[j as int],
            decreases j - k,
        {
            if links[k] == links[j] {
                return false;
            }
            k = k + 1;
        }
        j = j + 1;
    }
    true
}

/// Whether every node of `layer` has valid links.
pub(crate) fn links_ok(layer: &OrdinalMap<Vec<u64>>, degree: usize) -> (r: bool)
    ensures
        r == links_valid(layer@, degree as int),
{
    let keys = layer.keys();
    let mut i: usize = 0;
    while i < keys.len()
        invariant
            i <= keys@.len(),
            forall|k: u64| #[trigger] keys@.contains(k) <==> layer@.contains_key(k),
            forall|a: int| 0 <= a < i ==> neighbors_valid(layer@, #[trigger] keys@[a], layer@[keys@[a]]@, degree as int),
        decreases keys@.len() - i,
    {
        let ordinal = keys[i];
        assert(keys@.contains(ordinal));
        let links = layer.get(ordinal).unwrap();
        if !neighbors_ok(layer, ordinal, links, degree) {
            return false;
        }
        i = i + 1;
    }
    proof {
        assert forall|ordinal: u64| #[trigger] layer@.contains_key(ordinal) implies neighbors_valid(layer@, ordinal, layer@[ordinal]@, degree as int) by {
            assert(keys@.contains(ordinal));
            let a = choose|a: int| 0 <= a < keys@.len() && keys@[a] == ordinal;
            assert(neighbors_valid(layer@, keys@[a], layer@[keys@[a]]@, degree as int));
        }
    }
    true
}

/// Whether every node of `upper` is a node of `lower`.
fn nested_in(upper: &OrdinalMap<Vec<u64>>, lower: &OrdinalMap<Vec<u64>>) -> (r: bool)
    ensures
        r == forall|ordinal: u64| #[trigger] upper@.contains_key(ordinal) ==> lower@.contains_key(ordinal),
{
    let keys = upper.keys();
    let mut i: usize = 0;
    while i < keys.len()
        invariant
            i <= keys@.len(),
            forall|k: u64| #[trigger] keys@.contains(k) <==> upper@.contains_key(k),
            forall|a: int| 0 <= a < i ==> lower@.contains_key(#[trigger] keys@[a]),
        decreases keys@.len() - i,
    {
        if !lower.contains_key(keys[i]) {
            assert(keys@.contains(keys@[i as int]));
            return false;
        }
        i = i + 1;
    }
    proof {
        assert forall|ordinal: u64| #[trigger] upper@.contains_key(ordinal) implies lower@.contains_key(ordinal) by {
            assert(keys@.contains(ordinal));
            let a = choose|a: int| 0 <= a < keys@.len() && keys@[a] == ordinal;
            assert(lower@.contains_key(keys@[a]));
        }
    }
    true
}

/// Whether two maps hold values for the same ordinals.
pub(crate) fn same_ordinals<A, B>(left: &OrdinalMap<A>, right: &OrdinalMap<B>) -> (r: bool)
    ensures
        r == (left@.dom() == right@.dom()),
{
    let a = left.keys();
    let b = right.keys();
    let mut equal = a.len() == b.len();
    let mut i: usize = 0;
    while equal && i < a.len()
        invariant
            i <= a@.len(),
            equal ==> a@.len() == b@.len(),
            equal ==> forall|k: int| 0 <= k < i ==> a@[k] == b@[k],
            !equal ==> a@ != b@,
        decreases a@.len() - i,
    {
        if a[i] != b[i] {
            assert(a@[i as int] != b@[i as int]);
            equal = false;
        }
        i = i + 1;
    }
    proof {
        if equal {
            assert(a@ =~= b@);
            assert forall|k: u64| left@.dom().contains(k) <==> right@.dom().contains(k) by {
                assert(a@.contains(k) <==> left@.contains_key(k));
                assert(b@.contains(k) <==> right@.contains_key(k));
            }
            assert(left@.dom() =~= right@.dom());
        } else if left@.dom() == right@.dom() {
            assert forall|k: u64| a@.contains(k) <==> b@.contains(k) by {
                assert(a@.contains(k) <==> left@.contains_key(k));
                assert(b@.contains(k) <==> right@.contains_key(k));
            }
            lemma_sorted_same_values(a@, b@);
        }
    }
    equal
}

impl HnswIndex {
    /// Whether the graph is one that construction over `vectors` with `m`
    /// and `ef_construction` can have produced: see the clauses below.
    pub open spec fn spec_validates(&self, vectors: OrdinalMap<QuantizedVector>, m: usize, ef_construction: usize) -> bool {
        let layers = self.spec_layers();
        &&& vectors.well_formed()
        &&& 1 <= layers.len() <= MAX_LAYER_COUNT
        &&& self.spec_default_ef() == ef_construction
        &&& m != 0
        &&& ef_construction != 0
        &&& if vectors.recorded_len() == 0 {
            &&& self.spec_entry_ordinal() is None
            &&& layers.len() == 1
            &&& layers[0].recorded_len() == 0
        } else {
            &&& self.spec_entry_ordinal() is Some
            &&& layers[0]@.dom() == vectors@.dom()
            &&& layers.last()@.contains_key(self.spec_entry_ordinal()->0)
            &&& forall|l: int| 0 <= l < layers.len() ==> #[trigger] layer_valid(layers, l, vectors.slots().len() as int, m as int)
        }
    }

    /// Whether the graph is structurally sound for `vectors`: a consistent
    /// vector map, one to thirty-three layers, the recorded search width,
    /// an empty single layer for no vectors, and otherwise a base layer over
    /// exactly the vector ordinals, an entry node on the top layer, nested
    /// layers, and links within each layer's degree bound.
    pub fn validates(&self, vectors: &OrdinalMap<QuantizedVector>, m: usize, ef_construction: usize) -> (r: bool)
        ensures
            r == self.spec_validates(*vectors, m, ef_construction),
    {
        if !vectors.validates(vectors.slot_count()) || self.layers.len() == 0 || self.layers.len()
            > MAX_LAYER_COUNT || self.default_ef != ef_construction || m == 0 || ef_construction == 0 {
            return false;
        }
        if vectors.is_empty() {
            return self.entry_ordinal.is_none() && self.layers.len() == 1 && self.layers[0].is_empty();
        }
        let entry = match self.entry_ordinal {
            Some(entry) => entry,
            None => {
                return false;
            },
        };
        if !same_ordinals(&self.layers[0], vectors) || !self.layers[self.layers.len() - 1].contains_key(entry) {
            return false;
        }
        let max_slots = vectors.slot_count();
        let mut l: usize = 0;
        while l < self.layers.len()
            invariant
                l <= self.layers@.len(),
                max_slots == vectors.slots().len(),
                vectors.well_formed(),
                1 <= self.layers@.len() <= MAX_LAYER_COUNT,
                self.default_ef == ef_construction,
                m != 0,
                ef_construction != 0,
                vectors.recorded_len() != 0,
                self.entry_ordinal == Some(entry),
                self.layers@[0]@.dom() == vectors@.dom(),
                self.layers@.last()@.contains_key(entry),
                forall|k: int| 0 <= k < l ==> #[trigger] layer_valid(self.layers@, k, max_slots as int, m as int),
            decreases self.layers@.len() - l,
        {
            let layer = &self.layers[l];
            if !layer.validates(max_slots) || l > 0 && !nested_in(layer, &self.layers[l - 1]) {
                assert(!layer_valid(self.layers@, l as int, max_slots as int, m as int));
                return false;
            }
            let degree = if l == 0 {
                saturating_mul(m, 2)
            } else {
                m
            };
            let degree = if degree >= 1 {
                degree
            } else {
                1
            };
            if !links_ok(layer, degree) {
                assert(!layer_valid(self.layers@, l as int, max_slots as int, m as int));
                return false;
            }
            l = l + 1;
        }
        true
    }
}

/// Each node of a layer of a nested stack is a node of every layer below.
proof fn lemma_nested_below(layers: Seq<OrdinalMap<Vec<u64>>>, l: int, below: int, max_slots: int, m: int, ordinal: u64)
    requires
        0 <= below <= l < layers.len(),
        forall|k: int| 0 <= k < layers.len() ==> #[trigger] layer_valid(layers, k, max_slots, m),
        layers[l]@.contains_key(ordinal),
    ensures
        layers[below]@.contains_key(ordinal),
    decreases l,
{
    if l > below {
        assert(layer_valid(layers, l, max_slots, m));
        lemma_nested_below(layers, l - 1, below, max_slots, m, ordinal);
    }
}

impl HnswIndex {
    /// In a graph that passes validation over some vectors, the entry node
    /// is one of the vectors and a node of every layer.
    pub proof fn law_valid_entry_is_a_vector(&self, vectors: OrdinalMap<QuantizedVector>, m: usize, ef_construction: usize)
        requires
            self.spec_validates(vectors, m, ef_construction),
            vectors.recorded_len() != 0,
        ensures
            self.spec_entry_ordinal() matches Some(entry) && vectors@.contains_key(entry) && forall|l: int|
                0 <= l < self.spec_layers().len() ==> (#[trigger] self.spec_layers()[l])@.contains_key(entry),
    {
        let layers = self.spec_layers();
        let entry = self.spec_entry_ordinal()->0;
        let top = layers.len() - 1;
        assert forall|l: int| 0 <= l < layers.len() implies (#[trigger] layers[l])@.contains_key(entry) by {
            lemma_nested_below(layers, top, l, vectors.slots().len() as int, m as int, entry);
        }
        lemma_nested_below(layers, top, 0, vectors.slots().len() as int, m as int, entry);
    }
}

} // verus!
