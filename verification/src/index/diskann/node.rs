//! Node records of a sidecar field: where each record lives and what a
//! canonical record holds.
//!
//! A record is the node's ordinal (`u64`), its degree (`u32`) and a zero
//! `u32`; then either its product-quantized code (one byte per chunk) or its
//! coordinates as `f32` bit patterns; then `max_degree` neighbour slots of
//! `u64`, the unused ones zero; then zero padding to the record length.

use crate::error::{Error, ErrorCode, Result};
use super::codec::{
    align_up, law_push_then_read_u32, law_push_then_read_u64, push_u32, push_u64, spec_read_u32,
    spec_read_u64,
};
use vstd::bytes::*;
use super::reader::{read_u32, read_u64};
use vstd::prelude::*;
use vstd::slice::*;

verus! {

/// Bytes before a record's payload: ordinal, degree and a reserved word.
pub const RECORD_PREFIX_BYTES: usize = 16;

/// Whether an `f32` bit pattern is finite: its exponent is not all ones.
pub open spec fn finite_bits(bits: u32) -> bool {
    (bits >> 23u32) & 0xffu32 != 0xffu32
}

/// The shape of a product-quantized payload.
#[derive(Debug, Clone, Copy, PartialEq, Eq, Structural)]
pub struct PqShape {
    /// Code bytes per node.
    pub chunk_count: usize,
    /// Centroids per chunk; every code byte is below it.
    pub centroid_count: usize,
    /// The vector dimension the codebook was trained for.
    pub dimension: usize,
}

/// A node read back from its record: coordinates as `f32` bit patterns (or
/// none under product quantization), the quantized code (or none), and the
/// neighbour ordinals.
#[derive(Debug, Clone)]
pub struct DiskNode {
    pub vector_bits: Vec<u32>,
    pub code: Vec<u8>,
    pub neighbors: Vec<u64>,
}

/// Whether `values` holds `x`.
fn contains_u64(values: &Vec<u64>, x: u64) -> (r: bool)
    ensures
        r == values@.contains(x),
{
    let mut i: usize = 0;
    while i < values.len()
        invariant
            i <= values@.len(),
            forall|j: int| 0 <= j < i ==> values@[j] != x,
        decreases values.len() - i,
    {
        if values[i] == x {
            return true;
        }
        i = i + 1;
    }
    false
}

/// The last position of `ordinal` in `ordinals`.
pub open spec fn last_index(ordinals: Seq<u64>, ordinal: u64) -> Option<int>
    decreases ordinals.len(),
{
    if ordinals.len() == 0 {
        None
    } else if ordinals.last() == ordinal {
        Some(ordinals.len() - 1)
    } else {
        last_index(ordinals.drop_last(), ordinal)
    }
}

/// The sequence number of `ordinal` in an ordinal list: its last position.
pub open spec fn sequence_in(ordinals: Seq<u64>, ordinal: u64) -> Option<usize> {
    match last_index(ordinals, ordinal) {
        Some(i) => Some(i as usize),
        None => None,
    }
}

/// Slot `ordinal` of a direct-address table, `None` past its end.
pub open spec fn slot_of(slots: Seq<Option<usize>>, ordinal: u64) -> Option<usize> {
    if (ordinal as int) < slots.len() {
        slots[ordinal as int]
    } else {
        None
    }
}

/// A position found within a prefix stays within the whole list.
proof fn lemma_last_index_bound(ordinals: Seq<u64>, ordinal: u64)
    ensures
        last_index(ordinals, ordinal) matches Some(i) ==> 0 <= i < ordinals.len() && ordinals[i]
            == ordinal,
    decreases ordinals.len(),
{
    if ordinals.len() > 0 && ordinals.last() != ordinal {
        lemma_last_index_bound(ordinals.drop_last(), ordinal);
    }
}

/// The little-endian bytes of `words`, one after another.
pub open spec fn words_bytes(words: Seq<u32>) -> Seq<u8>
    decreases words.len(),
{
    if words.len() == 0 {
        Seq::empty()
    } else {
        words_bytes(words.drop_last()) + spec_u32_to_le_bytes(words.last())
    }
}

/// The little-endian bytes of `values`, one after another.
pub open spec fn slots_bytes(values: Seq<u64>) -> Seq<u8>
    decreases values.len(),
{
    if values.len() == 0 {
        Seq::empty()
    } else {
        slots_bytes(values.drop_last()) + spec_u64_to_le_bytes(values.last())
    }
}

proof fn lemma_words_bytes(prefix: Seq<u8>, words: Seq<u32>, suffix: Seq<u8>, i: int)
    requires
        0 <= i < words.len(),
    ensures
        words_bytes(words).len() == 4 * words.len(),
        spec_read_u32(prefix + words_bytes(words) + suffix, prefix.len() + 4 * i) == Some(words[i]),
    decreases words.len(),
{
    lemma_auto_spec_u32_to_from_le_bytes();
    lemma_words_len(words);
    let rest = words.drop_last();
    let last_bytes = spec_u32_to_le_bytes(words.last());
    if i == words.len() - 1 {
        assert(prefix + words_bytes(words) + suffix =~= (prefix + words_bytes(rest)) + last_bytes
            + suffix);
        law_push_then_read_u32(prefix + words_bytes(rest), suffix, words.last());
    } else {
        assert(prefix + words_bytes(words) + suffix =~= prefix + words_bytes(rest) + (last_bytes
            + suffix));
        lemma_words_bytes(prefix, rest, last_bytes + suffix, i);
    }
}

pub proof fn lemma_words_len(words: Seq<u32>)
    ensures
        words_bytes(words).len() == 4 * words.len(),
    decreases words.len(),
{
    lemma_auto_spec_u32_to_from_le_bytes();
    if words.len() > 0 {
        lemma_words_len(words.drop_last());
    }
}

pub proof fn lemma_slots_len(values: Seq<u64>)
    ensures
        slots_bytes(values).len() == 8 * values.len(),
    decreases values.len(),
{
    lemma_auto_spec_u64_to_from_le_bytes();
    if values.len() > 0 {
        lemma_slots_len(values.drop_last());
    }
}

proof fn lemma_slots_bytes(prefix: Seq<u8>, values: Seq<u64>, suffix: Seq<u8>, i: int)
    requires
        0 <= i < values.len(),
    ensures
        spec_read_u64(prefix + slots_bytes(values) + suffix, prefix.len() + 8 * i) == Some(
            values[i],
        ),
    decreases values.len(),
{
    lemma_auto_spec_u64_to_from_le_bytes();
    lemma_slots_len(values);
    let rest = values.drop_last();
    lemma_slots_len(rest);
    let last_bytes = spec_u64_to_le_bytes(values.last());
    if i == values.len() - 1 {
        assert(prefix + slots_bytes(values) + suffix =~= (prefix + slots_bytes(rest)) + last_bytes
            + suffix);
        law_push_then_read_u64(prefix + slots_bytes(rest), suffix, values.last());
    } else {
        assert(prefix + slots_bytes(values) + suffix =~= prefix + slots_bytes(rest) + (last_bytes
            + suffix));
        lemma_slots_bytes(prefix, rest, last_bytes + suffix, i);
    }
}

/// `neighbors` followed by zero slots up to `max_degree`.
pub open spec fn padded_slots(neighbors: Seq<u64>, max_degree: nat) -> Seq<u64> {
    neighbors + Seq::new((max_degree - neighbors.len()) as nat, |_i: int| 0u64)
}

/// Whether `record_bytes` leaves room for the prefix, a payload of
/// `payload_bytes` and `max_degree` neighbour slots.
pub open spec fn record_fits(payload_bytes: int, max_degree: int, record_bytes: int) -> bool {
    RECORD_PREFIX_BYTES + payload_bytes + 8 * max_degree <= record_bytes
}

/// Reading back what was written: the canonical record of a node whose
/// neighbours are distinct other nodes of the field, and whose payload fits
/// the field, parses back to exactly that node.
pub proof fn law_parse_encoded_node(
    layout: &NodeLayout,
    ordinal: u64,
    vector_bits: Seq<u32>,
    code: Seq<u8>,
    neighbors: Seq<u64>,
)
    requires
        layout.fits_records(),
        neighbors.len() <= layout.spec_max_degree(),
        neighbors.len() <= u32::MAX,
        match layout.spec_pq() {
            Some(pq) => code.len() == pq.chunk_count && forall|k: int|
                0 <= k < code.len() ==> (#[trigger] code[k] as int) < pq.centroid_count,
            None => vector_bits.len() == layout.spec_dimension() && forall|i: int|
                0 <= i < vector_bits.len() ==> finite_bits(#[trigger] vector_bits[i]),
        },
        forall|i: int|
            0 <= i < neighbors.len() ==> #[trigger] neighbors[i] != ordinal && layout.sequence_of(
                neighbors[i],
            ) is Some,
        forall|i: int, j: int| 0 <= i < j < neighbors.len() ==> neighbors[i] != neighbors[j],
    ensures
        ({
            let record = layout.spec_record(ordinal, vector_bits, code, neighbors);
            &&& layout.node_valid(ordinal, record)
            &&& layout.vector_bits_of(record) == match layout.spec_pq() {
                Some(_) => Seq::<u32>::empty(),
                None => vector_bits,
            }
            &&& layout.code_of(record) == match layout.spec_pq() {
                Some(_) => code,
                None => Seq::<u8>::empty(),
            }
            &&& layout.neighbors_of(record) == neighbors
        }),
{
    layout.lemma_record_shape(ordinal, vector_bits, code, neighbors);
}

/// The unaligned record length for a field: prefix, payload (a code byte
/// per chunk, or four bytes per coordinate) and `max_degree` slots.
pub open spec fn raw_record_bytes(dimension: int, max_degree: int, pq_chunks: Option<usize>) -> int {
    RECORD_PREFIX_BYTES + match pq_chunks {
        Some(chunks) => chunks as int,
        None => 4 * dimension,
    } + 8 * max_degree
}

/// The record length of a field: the unaligned length rounded up to a
/// multiple of eight. Fails when any step overflows `usize`.
pub fn record_bytes_for(dimension: usize, max_degree: usize, pq_chunks: Option<usize>) -> (r: Result<
    usize,
>)
    ensures
        match r {
            Ok(n) => {
                &&& raw_record_bytes(dimension as int, max_degree as int, pq_chunks) + 7 <= usize::MAX
                &&& n == ((raw_record_bytes(dimension as int, max_degree as int, pq_chunks) + 7) / 8)
                    * 8
                &&& n % 8 == 0
                &&& raw_record_bytes(dimension as int, max_degree as int, pq_chunks) <= n
                &&& n < raw_record_bytes(dimension as int, max_degree as int, pq_chunks) + 8
            },
            Err(e) => e.code == ErrorCode::ResourceExhausted && raw_record_bytes(
                dimension as int,
                max_degree as int,
                pq_chunks,
            ) + 7 > usize::MAX,
        },
{
    let vector_bytes = match pq_chunks {
        Some(chunks) => chunks,
        None => match dimension.checked_mul(4) {
            Some(bytes) => bytes,
            None => {
                return Err(Error::resource_exhausted("DiskANN vector record length overflow"));
            },
        },
    };
    let neighbor_bytes = match max_degree.checked_mul(8) {
        Some(bytes) => bytes,
        None => {
            return Err(Error::resource_exhausted("DiskANN neighbor record length overflow"));
        },
    };
    let raw = match RECORD_PREFIX_BYTES.checked_add(vector_bytes) {
        Some(partial) => match partial.checked_add(neighbor_bytes) {
            Some(total) => total,
            None => {
                return Err(Error::resource_exhausted("DiskANN node record length overflow"));
            },
        },
        None => {
            return Err(Error::resource_exhausted("DiskANN node record length overflow"));
        },
    };
    match align_up(raw, 8) {
        Some(aligned) => Ok(aligned),
        None => Err(Error::resource_exhausted("DiskANN node record alignment overflow")),
    }
}

/// How the records of a field are shaped: the code length of a quantized
/// payload (or `None` for coordinates), the dimension, the neighbour slots
/// and the record length.
#[derive(Debug, Clone, Copy, PartialEq, Eq, Structural)]
pub struct RecordShape {
    pub pq_chunks: Option<usize>,
    pub dimension: usize,
    pub max_degree: usize,
    pub record_bytes: usize,
}

impl RecordShape {
    /// Bytes from the record start to the first neighbour slot.
    pub open spec fn payload_end(self) -> int {
        RECORD_PREFIX_BYTES + match self.pq_chunks {
            Some(chunks) => chunks as int,
            None => 4 * self.dimension,
        }
    }

    /// The record length leaves room for the prefix, payload and slots.
    pub open spec fn fits(self) -> bool {
        self.payload_end() + 8 * self.max_degree <= self.record_bytes
    }
}

/// The canonical record of node `ordinal`: its prefix, its payload (the
/// code under quantization, else the coordinates' bit patterns), its
/// neighbour slots, and zero padding to the record length.
pub open spec fn node_record(
    shape: RecordShape,
    ordinal: u64,
    vector_bits: Seq<u32>,
    code: Seq<u8>,
    neighbors: Seq<u64>,
) -> Seq<u8> {
    let header = spec_u64_to_le_bytes(ordinal) + spec_u32_to_le_bytes(neighbors.len() as u32)
        + spec_u32_to_le_bytes(0u32);
    let payload = match shape.pq_chunks {
        Some(_) => code,
        None => words_bytes(vector_bits),
    };
    let body = header + payload + slots_bytes(padded_slots(neighbors, shape.max_degree as nat));
    body + Seq::new((shape.record_bytes - body.len()) as nat, |_i: int| 0u8)
}

/// Encodes node `ordinal` as its canonical record for a field of
/// `shape`. Fails when the node has more neighbours than the field
/// allows or its payload has the wrong length for the field.
pub fn encode_record(shape: &RecordShape, ordinal: u64, node: &DiskNode) -> (r: Result<Vec<u8>>)
    requires
        shape.fits(),
    ensures
        match r {
            Ok(record) => {
                &&& node.neighbors@.len() <= shape.max_degree
                &&& node.neighbors@.len() <= u32::MAX
                &&& match shape.pq_chunks {
                    Some(chunks) => node.code@.len() == chunks,
                    None => node.vector_bits@.len() == shape.dimension,
                }
                &&& record@ == node_record(*shape, ordinal, node.vector_bits@, node.code@, node.neighbors@)
                &&& record@.len() == shape.record_bytes
            },
            Err(e) => if node.neighbors@.len() > shape.max_degree {
                e.code == ErrorCode::Internal
            } else if node.neighbors@.len() > u32::MAX {
                e.code == ErrorCode::ResourceExhausted
            } else {
                e.code == ErrorCode::Internal && match shape.pq_chunks {
                    Some(chunks) => node.code@.len() != chunks,
                    None => node.vector_bits@.len() != shape.dimension,
                }
            },
        },
{
    if node.neighbors.len() > shape.max_degree {
        return Err(Error::internal("graph node exceeds its maximum degree"));
    }
    if node.neighbors.len() as u128 > u32::MAX as u128 {
        return Err(Error::resource_exhausted("node degree does not fit in u32"));
    }
    match shape.pq_chunks {
        Some(chunks) => {
            if node.code.len() != chunks {
                return Err(Error::internal("DiskANN PQ code exceeds its record"));
            }
        },
        None => {
            if node.vector_bits.len() != shape.dimension {
                return Err(Error::internal("graph vector dimension drifted"));
            }
        },
    }
    let degree = node.neighbors.len() as u32;
    let mut record: Vec<u8> = Vec::new();
    push_u64(&mut record, ordinal);
    push_u32(&mut record, degree);
    push_u32(&mut record, 0);
    let ghost header = record@;
    proof {
        lemma_auto_spec_u32_to_from_le_bytes();
        lemma_auto_spec_u64_to_from_le_bytes();
        assert(header =~= spec_u64_to_le_bytes(ordinal) + spec_u32_to_le_bytes(
            node.neighbors@.len() as u32,
        ) + spec_u32_to_le_bytes(0u32));
        assert(header.len() == 16);
    }
    match shape.pq_chunks {
        Some(_) => {
            let mut k: usize = 0;
            while k < node.code.len()
                invariant
                    k <= node.code@.len(),
                    record@ == header + node.code@.take(k as int),
                decreases node.code.len() - k,
            {
                record.push(node.code[k]);
                proof {
                    assert(record@ =~= header + node.code@.take(k + 1));
                }
                k = k + 1;
            }
            proof {
                assert(node.code@.take(node.code@.len() as int) =~= node.code@);
            }
        },
        None => {
            let mut i: usize = 0;
            proof {
                assert(node.vector_bits@.take(0) =~= Seq::<u32>::empty());
                assert(header + words_bytes(Seq::<u32>::empty()) =~= header);
            }
            while i < node.vector_bits.len()
                invariant
                    i <= node.vector_bits@.len(),
                    record@ == header + words_bytes(node.vector_bits@.take(i as int)),
                decreases node.vector_bits.len() - i,
            {
                push_u32(&mut record, node.vector_bits[i]);
                proof {
                    assert(node.vector_bits@.take(i + 1).drop_last() =~= node.vector_bits@.take(
                        i as int,
                    ));
                    assert(record@ =~= header + words_bytes(node.vector_bits@.take(i + 1)));
                }
                i = i + 1;
            }
            proof {
                assert(node.vector_bits@.take(node.vector_bits@.len() as int)
                    =~= node.vector_bits@);
            }
        },
    }
    let ghost body_start = record@;
    let ghost slots = padded_slots(node.neighbors@, shape.max_degree as nat);
    proof {
        assert(slots.take(0) =~= Seq::<u64>::empty());
        assert(body_start + slots_bytes(Seq::<u64>::empty()) =~= body_start);
        lemma_words_len(node.vector_bits@);
    }
    let mut slot: usize = 0;
    while slot < shape.max_degree
        invariant
            slot <= shape.max_degree,
            slots == padded_slots(node.neighbors@, shape.max_degree as nat),
            node.neighbors@.len() <= shape.max_degree,
            record@ == body_start + slots_bytes(slots.take(slot as int)),
        decreases shape.max_degree - slot,
    {
        let value: u64 = if slot < node.neighbors.len() {
            node.neighbors[slot]
        } else {
            0
        };
        push_u64(&mut record, value);
        proof {
            assert(slots[slot as int] == value);
            assert(slots.take(slot + 1).drop_last() =~= slots.take(slot as int));
            assert(record@ =~= body_start + slots_bytes(slots.take(slot + 1)));
        }
        slot = slot + 1;
    }
    let ghost body = record@;
    proof {
        assert(slots.take(shape.max_degree as int) =~= slots);
        lemma_slots_len(slots);
        assert(body.len() == shape.payload_end() + 8 * shape.max_degree);
    }
    while record.len() < shape.record_bytes
        invariant
            body.len() <= record@.len() <= shape.record_bytes,
            record@ == body + Seq::new((record@.len() - body.len()) as nat, |_i: int| 0u8),
        decreases shape.record_bytes - record.len(),
    {
        record.push(0);
        proof {
            assert(record@ =~= body + Seq::new((record@.len() - body.len()) as nat, |_i: int| 0u8));
        }
    }
    proof {
        assert(record@ =~= node_record(*shape, ordinal, node.vector_bits@, node.code@, node.neighbors@));
    }
    Ok(record)
}


/// Where record `sequence` of a field sits in the field's data: in sector
/// `sequence / nodes_per_sector` at slot `sequence % nodes_per_sector` when
/// records share sectors, else at its own run of `sectors_per_node` sectors.
pub open spec fn record_offset(
    nodes_per_sector: int,
    sectors_per_node: int,
    record_bytes: int,
    sequence: int,
) -> int {
    if nodes_per_sector > 0 {
        (sequence / nodes_per_sector) * 4096 + (sequence % nodes_per_sector) * record_bytes
    } else {
        sequence * (sectors_per_node * 4096)
    }
}

/// Where the records of one field live and how they are shaped.
pub struct NodeLayout {
    dimension: usize,
    max_degree: usize,
    entry_ordinal: Option<u64>,
    record_bytes: usize,
    nodes_per_sector: usize,
    sectors_per_node: usize,
    data_offset: u64,
    record_sequences: Vec<Option<usize>>,
    node_count: usize,
    pq: Option<PqShape>,
}

impl NodeLayout {
    /// The vector dimension.
    pub closed spec fn spec_dimension(&self) -> nat {
        self.dimension as nat
    }

    /// The number of neighbour slots per record.
    pub closed spec fn spec_max_degree(&self) -> nat {
        self.max_degree as nat
    }

    /// The product-quantized payload shape, if the field is quantized.
    pub closed spec fn spec_pq(&self) -> Option<PqShape> {
        self.pq
    }

    /// The record sequence number of `ordinal`, if the field holds it.
    pub closed spec fn sequence_of(&self, ordinal: u64) -> Option<usize> {
        if (ordinal as int) < self.record_sequences@.len() {
            self.record_sequences@[ordinal as int]
        } else {
            None
        }
    }

    /// Bytes from the record start to the first neighbour slot.
    pub closed spec fn payload_end(&self) -> int {
        RECORD_PREFIX_BYTES + match self.pq {
            Some(pq) => pq.chunk_count as int,
            None => 4 * self.dimension,
        }
    }

    /// The degree word of `record`.
    pub open spec fn degree_of(record: Seq<u8>) -> int {
        match spec_read_u32(record, 8) {
            Some(d) => d as int,
            None => 0,
        }
    }

    /// The value of neighbour slot `slot` of `record`.
    pub closed spec fn neighbor_at(&self, record: Seq<u8>, slot: int) -> u64 {
        match spec_read_u64(record, self.payload_end() + 8 * slot) {
            Some(n) => n,
            None => 0,
        }
    }

    /// The record names `ordinal`, its reserved word is zero, and its degree
    /// is at most the field's maximum.
    pub closed spec fn prefix_ok(&self, ordinal: u64, record: Seq<u8>) -> bool {
        &&& spec_read_u64(record, 0) == Some(ordinal)
        &&& spec_read_u32(record, 12) == Some(0u32)
        &&& spec_read_u32(record, 8) is Some
        &&& Self::degree_of(record) <= self.max_degree
    }

    /// The quantized payload's end does not fit in `usize`.
    pub closed spec fn pq_overflow(&self) -> bool {
        self.pq matches Some(pq) && RECORD_PREFIX_BYTES + pq.chunk_count > usize::MAX
    }

    /// The payload is present: every code byte names a centroid, or every
    /// coordinate is a finite `f32`.
    pub closed spec fn payload_ok(&self, record: Seq<u8>) -> bool {
        match self.pq {
            Some(pq) => {
                &&& RECORD_PREFIX_BYTES + pq.chunk_count <= record.len()
                &&& forall|k: int|
                    0 <= k < pq.chunk_count ==> (#[trigger] record[RECORD_PREFIX_BYTES + k] as int)
                        < pq.centroid_count
            },
            None => forall|i: int|
                0 <= i < self.dimension ==> ((#[trigger] spec_read_u32(
                    record,
                    RECORD_PREFIX_BYTES + 4 * i,
                )) matches Some(b) && finite_bits(b)),
        }
    }

    /// Every neighbour slot is present; the used ones name distinct other
    /// nodes of the field, the unused ones are zero.
    pub closed spec fn neighbors_ok(&self, ordinal: u64, record: Seq<u8>) -> bool {
        let d = Self::degree_of(record);
        &&& self.payload_end() + 8 * self.max_degree <= record.len()
        &&& forall|s: int|
            0 <= s < d ==> #[trigger] self.neighbor_at(record, s) != ordinal && self.sequence_of(
                self.neighbor_at(record, s),
            ) is Some
        &&& forall|s: int| d <= s < self.max_degree ==> #[trigger] self.neighbor_at(record, s) == 0
        &&& forall|a: int, b: int|
            0 <= a < b < d ==> self.neighbor_at(record, a) != self.neighbor_at(record, b)
    }

    /// Every byte after the last neighbour slot is zero.
    pub closed spec fn padding_ok(&self, record: Seq<u8>) -> bool {
        forall|k: int|
            self.payload_end() + 8 * self.max_degree <= k < record.len() ==> #[trigger] record[k]
                == 0
    }

    /// `record` is the canonical record of node `ordinal`.
    pub closed spec fn node_valid(&self, ordinal: u64, record: Seq<u8>) -> bool {
        &&& self.prefix_ok(ordinal, record)
        &&& !self.pq_overflow()
        &&& self.payload_ok(record)
        &&& self.neighbors_ok(ordinal, record)
        &&& self.padding_ok(record)
    }

    /// The coordinates' bit patterns a valid record holds.
    pub closed spec fn vector_bits_of(&self, record: Seq<u8>) -> Seq<u32> {
        match self.pq {
            Some(_) => Seq::empty(),
            None => Seq::new(
                self.dimension as nat,
                |i: int|
                    match spec_read_u32(record, RECORD_PREFIX_BYTES + 4 * i) {
                        Some(b) => b,
                        None => 0,
                    },
            ),
        }
    }

    /// The quantized code a valid record holds.
    pub closed spec fn code_of(&self, record: Seq<u8>) -> Seq<u8> {
        match self.pq {
            Some(pq) => record.subrange(
                RECORD_PREFIX_BYTES as int,
                RECORD_PREFIX_BYTES + pq.chunk_count,
            ),
            None => Seq::empty(),
        }
    }

    /// The neighbours a valid record holds, in slot order.
    pub closed spec fn neighbors_of(&self, record: Seq<u8>) -> Seq<u64> {
        Seq::new(Self::degree_of(record) as nat, |s: int| self.neighbor_at(record, s))
    }

    /// The byte offset of record `sequence` from the start of the field's
    /// data, when no step overflows `usize`.
    pub closed spec fn relative_offset(&self, sequence: int) -> Option<int> {
        if self.nodes_per_sector > 0 {
            let sector = sequence / (self.nodes_per_sector as int);
            let slot = sequence % (self.nodes_per_sector as int);
            if sector * 4096 > usize::MAX || slot * self.record_bytes > usize::MAX || sector * 4096
                + slot * self.record_bytes > usize::MAX {
                None
            } else {
                Some(
                    record_offset(
                        self.nodes_per_sector as int,
                        self.sectors_per_node as int,
                        self.record_bytes as int,
                        sequence,
                    ),
                )
            }
        } else {
            if self.sectors_per_node * 4096 > usize::MAX || sequence * (self.sectors_per_node * 4096)
                > usize::MAX {
                None
            } else {
                Some(
                    record_offset(
                        self.nodes_per_sector as int,
                        self.sectors_per_node as int,
                        self.record_bytes as int,
                        sequence,
                    ),
                )
            }
        }
    }

    /// Where the reader looks for the `sequence`-th record, when that offset
    /// fits in `usize`, is `record_offset`, the offset the writer uses.
    pub proof fn law_reader_offset(&self, sequence: int)
        ensures
            self.relative_offset(sequence) matches Some(offset) ==> offset == record_offset(
                self.spec_nodes_per_sector() as int,
                self.spec_sectors_per_node() as int,
                self.spec_record_bytes() as int,
                sequence,
            ),
    {
    }

    /// A layout for the records of `ordinals`, stored in that order after
    /// `data_offset`. Fails when an ordinal does not fit in `usize`, when the
    /// entry node is not among the ordinals, or when the codebook was
    /// trained for another dimension.
    pub fn new(
        dimension: usize,
        max_degree: usize,
        entry_ordinal: Option<u64>,
        record_bytes: usize,
        nodes_per_sector: usize,
        sectors_per_node: usize,
        data_offset: usize,
        ordinals: &[u64],
        pq: Option<PqShape>,
    ) -> (r: Result<Self>)
        requires
            forall|k: int| 0 <= k < ordinals@.len() ==> (#[trigger] ordinals@[k] as int) != usize::MAX,
        ensures
            ({
                let fits = forall|k: int|
                    0 <= k < ordinals@.len() ==> (#[trigger] ordinals@[k] as int) <= usize::MAX;
                let entry_ok = match entry_ordinal {
                    Some(e) => sequence_in(ordinals@, e) is Some,
                    None => true,
                };
                let pq_ok = match pq {
                    Some(shape) => shape.dimension == dimension,
                    None => true,
                };
                match r {
                    Ok(layout) => {
                        &&& fits && entry_ok && pq_ok
                        &&& layout.spec_dimension() == dimension
                        &&& layout.spec_max_degree() == max_degree
                        &&& layout.spec_pq() == pq
                        &&& layout.spec_record_bytes() == record_bytes
                        &&& layout.spec_nodes_per_sector() == nodes_per_sector
                        &&& layout.spec_sectors_per_node() == sectors_per_node
                        &&& layout.spec_data_offset() == data_offset
                        &&& layout.spec_entry_ordinal() == entry_ordinal
                        &&& layout.spec_node_count() == ordinals@.len()
                        &&& forall|o: u64| #[trigger]
                            layout.sequence_of(o) == sequence_in(ordinals@, o)
                    },
                    Err(e) => if !fits {
                        e.code == ErrorCode::ResourceExhausted
                    } else {
                        e.code == ErrorCode::Internal && !(entry_ok && pq_ok)
                    },
                }
            }),
    {
        let mut record_sequences: Vec<Option<usize>> = Vec::new();
        let mut sequence: usize = 0;
        proof {
            assert(ordinals@.take(0) =~= Seq::<u64>::empty());
        }
        while sequence < ordinals.len()
            invariant
                sequence <= ordinals@.len(),
                forall|k: int|
                    0 <= k < ordinals@.len() ==> (#[trigger] ordinals@[k] as int) != usize::MAX,
                forall|k: int| 0 <= k < sequence ==> (#[trigger] ordinals@[k] as int) <= usize::MAX,
                forall|o: u64| #[trigger]
                    slot_of(record_sequences@, o) == sequence_in(ordinals@.take(sequence as int), o),
            decreases ordinals.len() - sequence,
        {
            let ordinal = ordinals[sequence];
            if ordinal as u128 > usize::MAX as u128 {
                return Err(Error::resource_exhausted("DiskANN ordinal exceeds usize"));
            }
            let slot = ordinal as usize;
            let ghost before = record_sequences@;
            while record_sequences.len() <= slot
                invariant
                    slot < usize::MAX,
                    record_sequences@.len() >= before.len(),
                    record_sequences@.subrange(0, before.len() as int) == before,
                    forall|j: int| before.len() <= j < record_sequences@.len() ==> record_sequences@[j] is None,
                decreases slot + 1 - record_sequences.len(),
            {
                record_sequences.push(None);
            }
            record_sequences.set(slot, Some(sequence));
            proof {
                let taken = ordinals@.take(sequence + 1);
                assert(taken.drop_last() =~= ordinals@.take(sequence as int));
                assert(taken.last() == ordinal);
                assert forall|o: u64| #[trigger]
                    slot_of(record_sequences@, o) == sequence_in(taken, o) by {
                    if o != ordinal {
                        assert(slot_of(before, o) == sequence_in(ordinals@.take(sequence as int), o));
                        if (o as int) < before.len() {
                            assert(record_sequences@[o as int] == record_sequences@.subrange(
                                0,
                                before.len() as int,
                            )[o as int]);
                        } else if (o as int) < record_sequences@.len() {
                            assert(record_sequences@[o as int] is None);
                        }
                    }
                }
            }
            sequence = sequence + 1;
        }
        proof {
            assert(ordinals@.take(ordinals@.len() as int) =~= ordinals@);
        }
        match entry_ordinal {
            Some(entry) => {
                let present = if entry as u128 >= record_sequences.len() as u128 {
                    false
                } else {
                    record_sequences[entry as usize].is_some()
                };
                if !present {
                    proof {
                        assert(slot_of(record_sequences@, entry) is None);
                    }
                    return Err(Error::internal("DiskANN entry ordinal is absent from the field"));
                }
                proof {
                    assert(slot_of(record_sequences@, entry) is Some);
                }
            },
            None => {},
        }
        match pq {
            Some(shape) => {
                if shape.dimension != dimension {
                    return Err(Error::internal("DiskANN PQ codebook dimension is invalid"));
                }
            },
            None => {},
        }
        let ghost slots = record_sequences@;
        let layout = NodeLayout {
            dimension,
            max_degree,
            entry_ordinal,
            record_bytes,
            nodes_per_sector,
            sectors_per_node,
            data_offset: data_offset as u64,
            record_sequences,
            node_count: ordinals.len(),
            pq,
        };
        proof {
            assert forall|o: u64| #[trigger] layout.sequence_of(o) == sequence_in(ordinals@, o) by {
                assert(slot_of(slots, o) == sequence_in(ordinals@, o));
            }
        }
        Ok(layout)
    }

    /// The record length in bytes.
    pub closed spec fn spec_record_bytes(&self) -> nat {
        self.record_bytes as nat
    }

    /// Records per sector when records share sectors, else zero.
    pub closed spec fn spec_nodes_per_sector(&self) -> nat {
        self.nodes_per_sector as nat
    }

    /// Sectors per record when records span sectors, else zero.
    pub closed spec fn spec_sectors_per_node(&self) -> nat {
        self.sectors_per_node as nat
    }

    /// Where the field's data starts in the sidecar.
    pub closed spec fn spec_data_offset(&self) -> nat {
        self.data_offset as nat
    }

    /// The node every search starts from.
    pub closed spec fn spec_entry_ordinal(&self) -> Option<u64> {
        self.entry_ordinal
    }

    /// The number of records.
    pub closed spec fn spec_node_count(&self) -> nat {
        self.node_count as nat
    }

    /// The sidecar byte offset of the record of `ordinal`; `None` for an
    /// ordinal the field does not hold or an offset that overflows.
    pub fn record_position(&self, ordinal: u64) -> (r: Option<u64>)
        ensures
            r == match self.sequence_of(ordinal) {
                Some(sequence) => match self.relative_offset(sequence as int) {
                    Some(relative) => if self.spec_data_offset() + relative <= u64::MAX {
                        Some((self.spec_data_offset() + relative) as u64)
                    } else {
                        None
                    },
                    None => None,
                },
                None => None,
            },
    {
        if ordinal as u128 >= self.record_sequences.len() as u128 {
            return None;
        }
        let sequence = match self.record_sequences[ordinal as usize] {
            Some(sequence) => sequence,
            None => {
                return None;
            },
        };
        let relative: usize = if self.nodes_per_sector > 0 {
            let sector = sequence / self.nodes_per_sector;
            let slot = sequence % self.nodes_per_sector;
            let sector_bytes = sector.checked_mul(4096)?;
            let slot_bytes = slot.checked_mul(self.record_bytes)?;
            sector_bytes.checked_add(slot_bytes)?
        } else {
            let stride = self.sectors_per_node.checked_mul(4096)?;
            sequence.checked_mul(stride)?
        };
        self.data_offset.checked_add(relative as u64)
    }

    /// Which stored extent holds the record at sidecar offset `position`:
    /// its start, its length, and the record's offset inside it. Records
    /// that share sectors are read a sector at a time; a larger record is
    /// read as its own run of sectors.
    pub fn record_extent(&self, position: u64) -> (r: Result<(u64, usize, usize)>)
        ensures
            self.spec_nodes_per_sector() > 0 ==> r == Ok::<(u64, usize, usize), Error>(
                ((position - position % 4096) as u64, 4096usize, (position % 4096) as usize),
            ),
            self.spec_nodes_per_sector() == 0 ==> match r {
                Ok(v) => self.spec_sectors_per_node() * 4096 <= usize::MAX && v == (
                    position,
                    (self.spec_sectors_per_node() * 4096) as usize,
                    0usize,
                ),
                Err(e) => self.spec_sectors_per_node() * 4096 > usize::MAX && e.code
                    == ErrorCode::ResourceExhausted,
            },
    {
        if self.nodes_per_sector > 0 {
            let within = position % 4096;
            Ok((position - within, 4096, within as usize))
        } else {
            match self.sectors_per_node.checked_mul(4096) {
                Some(extent_bytes) => Ok((position, extent_bytes, 0)),
                None => Err(Error::resource_exhausted("DiskANN node extent overflow")),
            }
        }
    }

    /// The record that starts `record_offset` bytes into a stored extent.
    pub fn record_in_extent(&self, extent: &[u8], record_offset: usize) -> (r: Result<Vec<u8>>)
        ensures
            match r {
                Ok(record) => record_offset + self.spec_record_bytes() <= extent@.len() && record@
                    == extent@.subrange(
                    record_offset as int,
                    record_offset + self.spec_record_bytes(),
                ),
                Err(e) => if record_offset + self.spec_record_bytes() > usize::MAX {
                    e.code == ErrorCode::ResourceExhausted
                } else {
                    record_offset + self.spec_record_bytes() > extent@.len() && e.code
                        == ErrorCode::Internal
                },
            },
    {
        let end = match record_offset.checked_add(self.record_bytes) {
            Some(end) => end,
            None => {
                return Err(Error::resource_exhausted("DiskANN record boundary overflow"));
            },
        };
        if end > extent.len() {
            return Err(Error::internal("DiskANN record crosses its stored extent"));
        }
        Ok(slice_to_vec(slice_subrange(extent, record_offset, end)))
    }

    /// The canonical record of node `ordinal` with the given coordinates'
    /// bit patterns (unquantized fields), code (quantized fields) and
    /// neighbours, zero-padded to the record length.
    pub closed spec fn spec_record(
        &self,
        ordinal: u64,
        vector_bits: Seq<u32>,
        code: Seq<u8>,
        neighbors: Seq<u64>,
    ) -> Seq<u8> {
        node_record(self.record_shape_spec(), ordinal, vector_bits, code, neighbors)
    }

    /// The record shape of this field.
    pub closed spec fn record_shape_spec(&self) -> RecordShape {
        RecordShape {
            pq_chunks: match self.pq {
                Some(pq) => Some(pq.chunk_count),
                None => None,
            },
            dimension: self.dimension,
            max_degree: self.max_degree,
            record_bytes: self.record_bytes,
        }
    }

    /// The record shape of this field.
    pub fn record_shape(&self) -> (r: RecordShape)
        ensures
            r == self.record_shape_spec(),
    {
        RecordShape {
            pq_chunks: match self.pq {
                Some(pq) => Some(pq.chunk_count),
                None => None,
            },
            dimension: self.dimension,
            max_degree: self.max_degree,
            record_bytes: self.record_bytes,
        }
    }

    /// The record length leaves room for the prefix, payload and slots.
    pub closed spec fn fits_records(&self) -> bool {
        self.payload_end() + 8 * self.max_degree <= self.record_bytes
    }

    /// Encodes node `ordinal` as its canonical record. Fails when the node
    /// has more neighbours than the field allows or its payload has the
    /// wrong length for the field.
    pub fn encode_node(&self, ordinal: u64, node: &DiskNode) -> (r: Result<Vec<u8>>)
        requires
            self.fits_records(),
        ensures
            match r {
                Ok(record) => {
                    &&& node.neighbors@.len() <= self.spec_max_degree()
                    &&& node.neighbors@.len() <= u32::MAX
                    &&& match self.spec_pq() {
                        Some(pq) => node.code@.len() == pq.chunk_count,
                        None => node.vector_bits@.len() == self.spec_dimension(),
                    }
                    &&& record@ == self.spec_record(
                        ordinal,
                        node.vector_bits@,
                        node.code@,
                        node.neighbors@,
                    )
                    &&& record@.len() == self.spec_record_bytes()
                },
                Err(e) => if node.neighbors@.len() > self.spec_max_degree() {
                    e.code == ErrorCode::Internal
                } else if node.neighbors@.len() > u32::MAX {
                    e.code == ErrorCode::ResourceExhausted
                } else {
                    e.code == ErrorCode::Internal && match self.spec_pq() {
                        Some(pq) => node.code@.len() != pq.chunk_count,
                        None => node.vector_bits@.len() != self.spec_dimension(),
                    }
                },
            },
    {
        let shape = self.record_shape();
        encode_record(&shape, ordinal, node)
    }

    proof fn lemma_record_shape(
        &self,
        ordinal: u64,
        vector_bits: Seq<u32>,
        code: Seq<u8>,
        neighbors: Seq<u64>,
    )
        requires
            self.fits_records(),
            neighbors.len() <= self.max_degree,
            neighbors.len() <= u32::MAX,
            match self.pq {
                Some(pq) => code.len() == pq.chunk_count && forall|k: int|
                    0 <= k < code.len() ==> (#[trigger] code[k] as int) < pq.centroid_count,
                None => vector_bits.len() == self.dimension && forall|i: int|
                    0 <= i < vector_bits.len() ==> finite_bits(#[trigger] vector_bits[i]),
            },
            forall|i: int|
                0 <= i < neighbors.len() ==> #[trigger] neighbors[i] != ordinal
                    && self.sequence_of(neighbors[i]) is Some,
            forall|i: int, j: int| 0 <= i < j < neighbors.len() ==> neighbors[i] != neighbors[j],
        ensures
            ({
                let record = self.spec_record(ordinal, vector_bits, code, neighbors);
                &&& self.node_valid(ordinal, record)
                &&& self.vector_bits_of(record) == match self.pq {
                    Some(_) => Seq::<u32>::empty(),
                    None => vector_bits,
                }
                &&& self.code_of(record) == match self.pq {
                    Some(_) => code,
                    None => Seq::<u8>::empty(),
                }
                &&& self.neighbors_of(record) == neighbors
            }),
    {
        lemma_auto_spec_u32_to_from_le_bytes();
        lemma_auto_spec_u64_to_from_le_bytes();
        let d = neighbors.len() as u32;
        let word_o = spec_u64_to_le_bytes(ordinal);
        let word_d = spec_u32_to_le_bytes(d);
        let word_z = spec_u32_to_le_bytes(0u32);
        let header = word_o + word_d + word_z;
        let payload = match self.pq {
            Some(_) => code,
            None => words_bytes(vector_bits),
        };
        let slots = padded_slots(neighbors, self.max_degree as nat);
        let sb = slots_bytes(slots);
        let body = header + payload + sb;
        let record = self.spec_record(ordinal, vector_bits, code, neighbors);
        let zeros = Seq::new((self.record_bytes - body.len()) as nat, |_i: int| 0u8);
        lemma_words_len(vector_bits);
        lemma_slots_len(slots);
        assert(slots.len() == self.max_degree);
        assert(header.len() == 16);
        assert(payload.len() == self.payload_end() - 16);
        assert(record == body + zeros);
        assert(record.len() == self.record_bytes);
        // prefix
        assert(record =~= Seq::<u8>::empty() + word_o + (word_d + word_z + payload + sb + zeros));
        law_push_then_read_u64(Seq::<u8>::empty(), word_d + word_z + payload + sb + zeros, ordinal);
        assert(record =~= word_o + word_d + (word_z + payload + sb + zeros));
        law_push_then_read_u32(word_o, word_z + payload + sb + zeros, d);
        assert(record =~= (word_o + word_d) + word_z + (payload + sb + zeros));
        law_push_then_read_u32(word_o + word_d, payload + sb + zeros, 0u32);
        assert(Self::degree_of(record) == neighbors.len());
        assert(self.prefix_ok(ordinal, record));
        // payload
        match self.pq {
            Some(pq) => {
                assert(record.subrange(16, 16 + pq.chunk_count) =~= code);
                assert forall|k: int| 0 <= k < pq.chunk_count implies (#[trigger] record[
                    RECORD_PREFIX_BYTES + k
                ] as int) < pq.centroid_count by {
                    assert(record[RECORD_PREFIX_BYTES + k] == code[k]);
                }
                assert(self.payload_ok(record));
                assert(self.code_of(record) == code);
            },
            None => {
                assert(record =~= header + words_bytes(vector_bits) + (sb + zeros));
                assert forall|i: int| 0 <= i < self.dimension implies ((#[trigger] spec_read_u32(
                    record,
                    RECORD_PREFIX_BYTES + 4 * i,
                )) matches Some(b) && finite_bits(b)) by {
                    lemma_words_bytes(header, vector_bits, sb + zeros, i);
                }
                assert(self.payload_ok(record));
                assert forall|i: int| 0 <= i < self.dimension implies spec_read_u32(
                    record,
                    RECORD_PREFIX_BYTES + 4 * i,
                ) == Some(vector_bits[i]) by {
                    lemma_words_bytes(header, vector_bits, sb + zeros, i);
                }
                assert(self.vector_bits_of(record) =~= vector_bits);
            },
        }
        // neighbour slots
        assert(record =~= (header + payload) + sb + zeros);
        assert forall|s: int| 0 <= s < self.max_degree implies #[trigger] self.neighbor_at(record, s)
            == slots[s] by {
            lemma_slots_bytes(header + payload, slots, zeros, s);
        }
        assert forall|s: int| 0 <= s < neighbors.len() implies #[trigger] self.neighbor_at(record, s)
            != ordinal && self.sequence_of(self.neighbor_at(record, s)) is Some by {
            assert(self.neighbor_at(record, s) == slots[s]);
            assert(slots[s] == neighbors[s]);
        }
        assert forall|s: int| neighbors.len() <= s < self.max_degree implies #[trigger] self.neighbor_at(
            record,
            s,
        ) == 0 by {
            assert(self.neighbor_at(record, s) == slots[s]);
        }
        assert forall|a: int, b: int| 0 <= a < b < neighbors.len() implies self.neighbor_at(record, a)
            != self.neighbor_at(record, b) by {
            assert(self.neighbor_at(record, a) == slots[a]);
            assert(self.neighbor_at(record, b) == slots[b]);
            assert(slots[a] == neighbors[a]);
            assert(slots[b] == neighbors[b]);
        }
        assert(self.neighbors_ok(ordinal, record));
        assert forall|k: int| self.payload_end() + 8 * self.max_degree <= k < record.len() implies #[trigger] record[k]
            == 0 by {
            assert(record[k] == zeros[k - body.len()]);
        }
        assert(self.padding_ok(record));
        assert forall|s: int| 0 <= s < neighbors.len() implies self.neighbors_of(record)[s]
            == neighbors[s] by {
            assert(self.neighbor_at(record, s) == slots[s]);
        }
        assert(self.neighbors_of(record) =~= neighbors);
    }

    /// Whether the field holds a record for `ordinal`.
    pub fn contains_ordinal(&self, ordinal: u64) -> (r: bool)
        ensures
            r == (self.sequence_of(ordinal) is Some),
    {
        if ordinal as u128 >= self.record_sequences.len() as u128 {
            return false;
        }
        self.record_sequences[ordinal as usize].is_some()
    }

    /// Decodes the record of node `ordinal`, rejecting any record that is
    /// not the canonical encoding of a node of this field.
    pub fn parse_node(&self, ordinal: u64, record: &[u8]) -> (r: Result<DiskNode>)
        ensures
            r is Ok <==> self.node_valid(ordinal, record@),
            r matches Ok(node) ==> {
                &&& node.vector_bits@ == self.vector_bits_of(record@)
                &&& node.code@ == self.code_of(record@)
                &&& node.neighbors@ == self.neighbors_of(record@)
            },
            r matches Err(e) ==> e.code == if self.prefix_ok(ordinal, record@)
                && self.pq_overflow() {
                ErrorCode::ResourceExhausted
            } else {
                ErrorCode::Internal
            },
    {
        let ghost rec = record@;
        let total = record.len();
        let prefix_ok = match (read_u64(record, 0), read_u32(record, 12)) {
            (Some(found), Some(reserved)) => found == ordinal && reserved == 0,
            _ => false,
        };
        if !prefix_ok {
            return Err(Error::internal("DiskANN node prefix is invalid"));
        }
        let degree: usize = match read_u32(record, 8) {
            Some(d) if (d as usize) <= self.max_degree => d as usize,
            _ => {
                return Err(Error::internal("DiskANN node degree is invalid"));
            },
        };
        let mut cursor: usize = RECORD_PREFIX_BYTES;
        let mut vector_bits: Vec<u32> = Vec::new();
        let mut code: Vec<u8> = Vec::new();
        match self.pq {
            Some(pq) => {
                let end = match cursor.checked_add(pq.chunk_count) {
                    Some(end) => end,
                    None => {
                        return Err(Error::resource_exhausted("DiskANN PQ code boundary overflow"));
                    },
                };
                if end > record.len() {
                    return Err(Error::internal("DiskANN PQ code is truncated"));
                }
                code = slice_to_vec(slice_subrange(record, cursor, end));
                let mut k: usize = 0;
                while k < code.len()
                    invariant
                        rec == record@,
                        self.pq == Some(pq),
                        end == RECORD_PREFIX_BYTES + pq.chunk_count,
                        end <= rec.len(),
                        code@ == rec.subrange(RECORD_PREFIX_BYTES as int, end as int),
                        k <= code.len(),
                        forall|j: int|
                            0 <= j < k ==> (#[trigger] rec[RECORD_PREFIX_BYTES + j] as int)
                                < pq.centroid_count,
                    decreases code.len() - k,
                {
                    if code[k] as usize >= pq.centroid_count {
                        proof {
                            assert(rec[RECORD_PREFIX_BYTES + k] == code@[k as int]);
                            assert((rec[RECORD_PREFIX_BYTES + (k as int)] as int) >= pq.centroid_count);
                            assert(!self.payload_ok(rec));
                            assert(!self.node_valid(ordinal, record@));
                        }
                        return Err(Error::internal("DiskANN PQ code is invalid"));
                    }
                    proof {
                        assert(rec[RECORD_PREFIX_BYTES + k] == code@[k as int]);
                    }
                    k = k + 1;
                }
                cursor = end;
            },
            None => {
                let mut i: usize = 0;
                while i < self.dimension
                    invariant
                        self.pq is None,
                        rec == record@,
                        total == rec.len(),
                        cursor <= rec.len(),
                        i <= self.dimension,
                        cursor == RECORD_PREFIX_BYTES + 4 * i,
                        vector_bits@.len() == i,
                        forall|j: int|
                            0 <= j < i ==> ((#[trigger] spec_read_u32(
                                rec,
                                RECORD_PREFIX_BYTES + 4 * j,
                            )) matches Some(b) && finite_bits(b) && vector_bits@[j] == b),
                    decreases self.dimension - i,
                {
                    let value = match read_u32(record, cursor) {
                        Some(bits) => bits,
                        None => {
                            return Err(Error::internal("DiskANN node vector is invalid"));
                        },
                    };
                    if (value >> 23u32) & 0xffu32 == 0xffu32 {
                        return Err(Error::internal("DiskANN node vector is invalid"));
                    }
                    vector_bits.push(value);
                    cursor = cursor + 4;
                    i = i + 1;
                }
            },
        }
        proof {
            if self.pq is None {
                assert(vector_bits@ =~= self.vector_bits_of(rec));
            }
        }
        proof {
            assert(!self.pq_overflow());
            assert(cursor as int == self.payload_end());
        }
        let ghost payload_end = cursor as int;
        let mut neighbors: Vec<u64> = Vec::new();
        let mut slot: usize = 0;
        while slot < self.max_degree
            invariant
                rec == record@,
                total == rec.len(),
                !self.pq_overflow(),
                self.prefix_ok(ordinal, rec),
                payload_end == self.payload_end(),
                payload_end <= rec.len(),
                degree == Self::degree_of(rec),
                degree <= self.max_degree,
                slot <= self.max_degree,
                cursor == payload_end + 8 * slot,
                neighbors@.len() == if slot < degree {
                    slot as int
                } else {
                    degree as int
                },
                forall|s: int|
                    0 <= s < slot ==> (#[trigger] spec_read_u64(rec, payload_end + 8 * s)) is Some,
                forall|s: int| 0 <= s < neighbors@.len() ==> neighbors@[s] == self.neighbor_at(rec, s),
                forall|s: int|
                    0 <= s < slot && s < degree ==> #[trigger] self.neighbor_at(rec, s) != ordinal
                        && self.sequence_of(self.neighbor_at(rec, s)) is Some,
                forall|s: int| degree <= s < slot ==> #[trigger] self.neighbor_at(rec, s) == 0,
                forall|a: int, b: int|
                    0 <= a < b < neighbors@.len() ==> self.neighbor_at(rec, a) != self.neighbor_at(
                        rec,
                        b,
                    ),
            decreases self.max_degree - slot,
        {
            let neighbor = match read_u64(record, cursor) {
                Some(n) => n,
                None => {
                    return Err(Error::internal("DiskANN neighbor slot is truncated"));
                },
            };
            proof {
                assert(self.neighbor_at(rec, slot as int) == neighbor);
            }
            if slot < degree {
                if neighbor == ordinal || !self.contains_ordinal(neighbor) {
                    return Err(Error::internal("DiskANN neighbor ordinal is invalid"));
                }
                if contains_u64(&neighbors, neighbor) {
                    proof {
                        let seen = choose|seen: int| 0 <= seen < neighbors@.len() && neighbors@[seen] == neighbor;
                        assert(self.neighbor_at(rec, seen) == self.neighbor_at(rec, slot as int));
                        assert(!self.neighbors_ok(ordinal, rec));
                    }
                    return Err(Error::internal("DiskANN node record is not canonical"));
                }
                neighbors.push(neighbor);
            } else if neighbor != 0 {
                return Err(Error::internal("DiskANN unused neighbor slot is not zero"));
            }
            cursor = cursor + 8;
            slot = slot + 1;
        }
        if cursor > record.len() {
            return Err(Error::internal("DiskANN node record is not canonical"));
        }
        proof {
            assert(cursor == self.payload_end() + 8 * self.max_degree);
        }
        let mut k: usize = cursor;
        while k < record.len()
            invariant
                rec == record@,
                !self.pq_overflow(),
                self.prefix_ok(ordinal, rec),
                cursor == self.payload_end() + 8 * self.max_degree,
                cursor <= k <= rec.len(),
                forall|j: int| cursor <= j < k ==> #[trigger] rec[j] == 0,
            decreases record.len() - k,
        {
            if record[k] != 0 {
                proof {
                    assert(rec[k as int] != 0);
                    assert(!self.padding_ok(rec));
                }
                return Err(Error::internal("DiskANN node record is not canonical"));
            }
            k = k + 1;
        }
        proof {
            assert(neighbors@ =~= self.neighbors_of(rec));
        }
        Ok(DiskNode { vector_bits, code, neighbors })
    }
}

} // verus!
