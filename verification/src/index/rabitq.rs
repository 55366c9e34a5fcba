//! Compact bit-packed `RaBitQ` codes and quantizer option checks.

use crate::error::{Error, ErrorCode, Result};
use crate::index::hnsw::same_ordinals;
use crate::index::ordinal_map::OrdinalMap;
use crate::index::quantization::{all_patterns_finite, f32_pattern_finite, QuantizedVector};
use crate::index::rotation::RabitqRotation;
use crate::multi_query::f64_bits_nonnegative_finite;
use crate::types::MetricType;
use vstd::prelude::*;

verus! {

/// Bit `j` of a little-endian bit string stored in bytes: bit `j % 8` of
/// byte `j / 8`.
pub open spec fn byte_bit(bytes: Seq<u8>, j: int) -> bool {
    (bytes[j / 8] >> ((j % 8) as u8)) & 1u8 == 1u8
}

/// Bit `b` of `value`.
pub open spec fn value_bit(value: u16, b: int) -> bool {
    (value >> (b as u16)) & 1u16 == 1u16
}

/// Bit `j` of the packed code: value `j / total_bits`, bit `j % total_bits`.
pub open spec fn packed_bit(values: Seq<u16>, total_bits: int, j: int) -> bool {
    0 <= j < values.len() * total_bits && value_bit(values[j / total_bits], j % total_bits)
}

/// The number of bytes holding `count` codes of `total_bits` bits.
pub open spec fn spec_packed_bytes(count: int, total_bits: int) -> int {
    (count * total_bits + 7) / 8
}

/// The value assembled from the `bits` bits that start at bit `base`.
pub open spec fn unpacked_bits(packed: Seq<u8>, base: int, bits: int) -> u16
    decreases bits,
{
    if bits <= 0 {
        0u16
    } else {
        unpacked_bits(packed, base, bits - 1) | ((if byte_bit(packed, base + bits - 1) {
            1u16
        } else {
            0u16
        }) << ((bits - 1) as u16))
    }
}

pub(crate) fn saturating_mul(left: usize, right: usize) -> (r: usize)
    ensures
        r == if left * right <= usize::MAX {
            left * right
        } else {
            usize::MAX as int
        },
{
    match left.checked_mul(right) {
        Some(product) => product,
        None => usize::MAX,
    }
}

/// The number of bytes holding `dimension` codes of `total_bits` bits each,
/// with saturating arithmetic.
pub fn packed_bytes(dimension: usize, total_bits: usize) -> (r: usize)
    ensures
        dimension * total_bits + 7 <= usize::MAX ==> r == spec_packed_bytes(
            dimension as int,
            total_bits as int,
        ),
        dimension * total_bits + 7 > usize::MAX ==> r == if dimension * total_bits <= usize::MAX {
            usize::MAX as int / 8
        } else {
            usize::MAX as int / 8
        },
{
    let bits = saturating_mul(dimension, total_bits);
    let rounded = bits.saturating_add(7);
    rounded / 8
}

proof fn lemma_set_byte_bit(bytes: Seq<u8>, offset: int)
    requires
        0 <= offset < bytes.len() * 8,
    ensures
        ({
            let updated = bytes.update(
                offset / 8,
                bytes[offset / 8] | (1u8 << ((offset % 8) as u8)),
            );
            forall|j: int|
                0 <= j < bytes.len() * 8 ==> #[trigger] byte_bit(updated, j) == (j == offset
                    || byte_bit(bytes, j))
        }),
{
    let updated = bytes.update(offset / 8, bytes[offset / 8] | (1u8 << ((offset % 8) as u8)));
    assert forall|j: int| 0 <= j < bytes.len() * 8 implies #[trigger] byte_bit(updated, j) == (j
        == offset || byte_bit(bytes, j)) by {
        let x = bytes[offset / 8];
        let k = (offset % 8) as u8;
        let m = (j % 8) as u8;
        assert(0 <= j / 8 < bytes.len()) by (nonlinear_arith)
            requires
                0 <= j < bytes.len() * 8,
        ;
        assert(0 <= offset / 8 < bytes.len()) by (nonlinear_arith)
            requires
                0 <= offset < bytes.len() * 8,
        ;
        if j / 8 == offset / 8 {
            assert(k < 8 && m < 8);
            assert(((x | (1u8 << k)) >> m) & 1u8 == if k == m {
                1u8
            } else {
                (x >> m) & 1u8
            }) by (bit_vector)
                requires
                    k < 8,
                    m < 8,
            ;
            assert((j == offset) == (k == m)) by {
                vstd::arithmetic::div_mod::lemma_fundamental_div_mod(j, 8);
                vstd::arithmetic::div_mod::lemma_fundamental_div_mod(offset, 8);
            }
        } else {
            assert(j != offset);
        }
    }
}

proof fn lemma_bit_test(value: u16, bit: u16)
    requires
        bit < 16,
    ensures
        (value & (1u16 << bit) != 0u16) == value_bit(value, bit as int),
{
    assert((value & (1u16 << bit) != 0u16) == ((value >> bit) & 1u16 == 1u16)) by (bit_vector)
        requires
            bit < 16,
    ;
}

proof fn lemma_split_offset(index: int, bit: int, total_bits: int)
    requires
        0 <= bit < total_bits,
        0 <= index,
    ensures
        (index * total_bits + bit) / total_bits == index,
        (index * total_bits + bit) % total_bits == bit,
{
    vstd::arithmetic::div_mod::lemma_fundamental_div_mod_converse(
        index * total_bits + bit,
        total_bits,
        index,
        bit,
    );
}

/// Packs each value's low `total_bits` bits, little-endian, into a dense bit
/// string: bit `b` of value `i` becomes bit `i * total_bits + b`.
pub fn pack_values(values: &[u16], total_bits: usize) -> (r: Vec<u8>)
    requires
        total_bits <= 16,
        values@.len() * total_bits + 7 <= usize::MAX,
    ensures
        r@.len() == spec_packed_bytes(values@.len() as int, total_bits as int),
        forall|j: int|
            0 <= j < r@.len() * 8 ==> #[trigger] byte_bit(r@, j) == packed_bit(
                values@,
                total_bits as int,
                j,
            ),
{
    let count = values.len();
    let length = packed_bytes(count, total_bits);
    let mut packed: Vec<u8> = Vec::new();
    while packed.len() < length
        invariant
            packed@.len() <= length,
            forall|i: int| 0 <= i < packed@.len() ==> #[trigger] packed@[i] == 0u8,
        decreases length - packed@.len(),
    {
        packed.push(0u8);
    }
    proof {
        assert forall|j: int| 0 <= j < packed@.len() * 8 implies !#[trigger] byte_bit(packed@, j) by {
            assert(0 <= j / 8 < packed@.len()) by (nonlinear_arith)
                requires
                    0 <= j < packed@.len() * 8,
            ;
            let m = (j % 8) as u8;
            assert((0u8 >> m) & 1u8 == 0u8) by (bit_vector);
        }
        assert(count * total_bits <= length * 8) by (nonlinear_arith)
            requires
                length == (count * total_bits + 7) / 8,
        ;
    }
    let mut index: usize = 0;
    while index < count
        invariant
            count == values@.len(),
            total_bits <= 16,
            count * total_bits + 7 <= usize::MAX,
            length == spec_packed_bytes(count as int, total_bits as int),
            count * total_bits <= length * 8,
            packed@.len() == length,
            index <= count,
            forall|j: int|
                0 <= j < packed@.len() * 8 ==> #[trigger] byte_bit(packed@, j) == (j < index
                    * total_bits && packed_bit(values@, total_bits as int, j)),
        decreases count - index,
    {
        let value = values[index];
        assert(index * total_bits + total_bits <= count * total_bits) by (nonlinear_arith)
            requires
                index < count,
        ;
        let bit_offset = index * total_bits;
        let mut bit: usize = 0;
        while bit < total_bits
            invariant
                count == values@.len(),
                total_bits <= 16,
                index < count,
                value == values@[index as int],
                bit_offset == index * total_bits,
                bit_offset + total_bits <= count * total_bits,
                count * total_bits + 7 <= usize::MAX,
                count * total_bits <= length * 8,
                packed@.len() == length,
                bit <= total_bits,
                forall|j: int|
                    0 <= j < packed@.len() * 8 ==> #[trigger] byte_bit(packed@, j) == (j
                        < bit_offset + bit && packed_bit(values@, total_bits as int, j)),
            decreases total_bits - bit,
        {
            proof {
                lemma_bit_test(value, bit as u16);
                lemma_split_offset(index as int, bit as int, total_bits as int);
            }
            if value & (1u16 << (bit as u16)) != 0 {
                let offset = bit_offset + bit;
                let byte = offset / 8;
                let shift = (offset % 8) as u8;
                proof {
                    lemma_set_byte_bit(packed@, offset as int);
                }
                let updated = packed[byte] | (1u8 << shift);
                packed.set(byte, updated);
            }
            proof {
                assert forall|j: int| 0 <= j < packed@.len() * 8 implies #[trigger] byte_bit(
                    packed@,
                    j,
                ) == (j < bit_offset + bit + 1 && packed_bit(values@, total_bits as int, j)) by {
                    if j == bit_offset + bit {
                        assert(j < values@.len() * total_bits);
                    }
                }
            }
            bit = bit + 1;
        }
        assert((index + 1) * total_bits == index * total_bits + total_bits) by (nonlinear_arith);
        index = index + 1;
    }
    proof {
        assert forall|j: int| 0 <= j < packed@.len() * 8 implies #[trigger] byte_bit(packed@, j)
            == packed_bit(values@, total_bits as int, j) by {
            if j >= count * total_bits {
                assert(!packed_bit(values@, total_bits as int, j));
            }
        }
    }
    packed
}

/// Reads back value `index` of a packed code: its `total_bits` bits,
/// little-endian, starting at bit `index * total_bits`.
pub fn unpack_value(packed: &[u8], index: usize, total_bits: usize) -> (r: u16)
    requires
        total_bits <= 16,
        (index + 1) * total_bits <= packed@.len() * 8,
        (index + 1) * total_bits <= usize::MAX,
    ensures
        r == unpacked_bits(packed@, index * total_bits, total_bits as int),
{
    let total = packed.len();
    assert(index * total_bits + total_bits == (index + 1) * total_bits) by (nonlinear_arith);
    let bit_offset = index * total_bits;
    let mut value: u16 = 0;
    let mut bit: usize = 0;
    while bit < total_bits
        invariant
            total == packed@.len(),
            total_bits <= 16,
            bit_offset == index * total_bits,
            bit_offset + total_bits <= packed@.len() * 8,
            bit_offset + total_bits <= usize::MAX,
            bit <= total_bits,
            value == unpacked_bits(packed@, bit_offset as int, bit as int),
        decreases total_bits - bit,
    {
        let offset = bit_offset + bit;
        let byte = packed[offset / 8];
        let shift = (offset % 8) as u8;
        let low = ((byte >> shift) & 1u8) as u16;
        proof {
            assert(low == if (byte >> shift) & 1u8 == 1u8 {
                1u16
            } else {
                0u16
            }) by (bit_vector)
                requires
                    low == ((byte >> shift) & 1u8) as u16,
            ;
        }
        value = value | (low << (bit as u16));
        bit = bit + 1;
    }
    value
}

proof fn lemma_mask_step(v: u16, b: u32)
    requires
        b < 16,
    ensures
        ((v as u32 & (((1u32 << b) - 1u32) as u32)) as u16) | ((if (v >> (b as u16)) & 1u16 == 1u16 {
            1u16
        } else {
            0u16
        }) << (b as u16)) == (v as u32 & (((1u32 << (b + 1) as u32) - 1u32) as u32)) as u16,
{
    let bit = if (v >> (b as u16)) & 1u16 == 1u16 {
        1u16
    } else {
        0u16
    };
    assert(bit == (v >> (b as u16)) & 1u16) by (bit_vector)
        requires
            bit == if (v >> (b as u16)) & 1u16 == 1u16 {
                1u16
            } else {
                0u16
            },
    ;
    assert(((v as u32 & (((1u32 << b) - 1u32) as u32)) as u16) | (((v >> (b as u16)) & 1u16) << (b as u16))
        == (v as u32 & (((1u32 << (b + 1) as u32) - 1u32) as u32)) as u16) by (bit_vector)
        requires
            b < 16,
    ;
}

proof fn lemma_unpacked_prefix(packed: Seq<u8>, values: Seq<u16>, tb: int, index: int, bits: int)
    requires
        0 < tb <= 16,
        0 <= bits <= tb,
        0 <= index < values.len(),
        (index + 1) * tb <= packed.len() * 8,
        forall|j: int|
            0 <= j < packed.len() * 8 ==> #[trigger] byte_bit(packed, j) == packed_bit(values, tb, j),
    ensures
        unpacked_bits(packed, index * tb, bits) == (values[index] as u32 & (((1u32 << (bits as u32)) - 1u32) as u32)) as u16,
    decreases bits,
{
    let v = values[index];
    if bits == 0 {
        assert((v as u32 & (((1u32 << 0u32) - 1u32) as u32)) as u16 == 0u16) by (bit_vector);
    } else {
        lemma_unpacked_prefix(packed, values, tb, index, bits - 1);
        let j = index * tb + bits - 1;
        lemma_split_offset(index, bits - 1, tb);
        assert(index * tb + tb == (index + 1) * tb) by (nonlinear_arith);
        assert(index * tb + tb <= values.len() * tb) by (nonlinear_arith)
            requires
                index < values.len(),
                tb > 0,
        ;
        assert(byte_bit(packed, j) == value_bit(v, bits - 1));
        lemma_mask_step(v, (bits - 1) as u32);
    }
}

/// Packing then unpacking is the identity on values that fit in
/// `total_bits` bits.
pub proof fn law_pack_then_unpack(values: Seq<u16>, total_bits: int, packed: Seq<u8>, index: int)
    requires
        0 < total_bits <= 16,
        packed.len() == spec_packed_bytes(values.len() as int, total_bits),
        forall|j: int|
            0 <= j < packed.len() * 8 ==> #[trigger] byte_bit(packed, j) == packed_bit(
                values,
                total_bits,
                j,
            ),
        0 <= index < values.len(),
        (values[index] as u32) < (1u32 << (total_bits as u32)),
    ensures
        unpacked_bits(packed, index * total_bits, total_bits) == values[index],
{
    assert((index + 1) * total_bits <= values.len() * total_bits) by (nonlinear_arith)
        requires
            index < values.len(),
            total_bits > 0,
    ;
    assert(values.len() * total_bits <= packed.len() * 8) by (nonlinear_arith)
        requires
            packed.len() == (values.len() * total_bits + 7) / 8,
    ;
    lemma_unpacked_prefix(packed, values, total_bits, index, total_bits);
    let v = values[index];
    let tb = total_bits as u32;
    assert((v as u32 & (((1u32 << tb) - 1u32) as u32)) as u16 == v) by (bit_vector)
        requires
            (v as u32) < (1u32 << tb),
            tb <= 16,
    ;
}

/// What `pack_values` gives for values of at most `total_bits` bits (the
/// bit count fitting `usize`) unpacks to those values: its length is
/// `packed_bytes(values.len(), total_bits)`, every index lies within it,
/// and value `i` reads back from its bits.
pub proof fn law_pack_round_trip(values: Seq<u16>, total_bits: int, packed: Seq<u8>)
    requires
        1 <= total_bits <= 9,
        values.len() * total_bits + 7 <= usize::MAX,
        forall|i: int| 0 <= i < values.len() ==> ((#[trigger] values[i]) as u32) < (1u32 << (total_bits as u32)),
        packed.len() == spec_packed_bytes(values.len() as int, total_bits),
        forall|j: int|
            0 <= j < packed.len() * 8 ==> #[trigger] byte_bit(packed, j) == packed_bit(values, total_bits, j),
    ensures
        packed.len() == saturated_packed_bytes(values.len() as int, total_bits),
        forall|i: int| 0 <= i < values.len() ==> #[trigger] index_bits_fit(i, total_bits, packed.len() as int),
        forall|i: int|
            #![trigger values[i]]
            0 <= i < values.len() ==> unpacked_bits(packed, i * total_bits, total_bits) == values[i],
{
    assert forall|i: int| 0 <= i < values.len() implies #[trigger] index_bits_fit(i, total_bits, packed.len() as int) by {
        lemma_index_bits_fit(values.len() as int, total_bits, packed.len() as int, i);
    }
    assert forall|i: int| #![trigger values[i]] 0 <= i < values.len() implies unpacked_bits(packed, i * total_bits, total_bits) == values[i] by {
        law_pack_then_unpack(values, total_bits, packed, i);
    }
}

/// Value `i` of `total_bits` bits lies within `byte_count` bytes.
pub open spec fn index_bits_fit(i: int, total_bits: int, byte_count: int) -> bool {
    (i + 1) * total_bits <= byte_count * 8
}

proof fn lemma_index_bits_fit(count: int, total_bits: int, byte_count: int, i: int)
    requires
        0 <= i < count,
        total_bits > 0,
        byte_count == (count * total_bits + 7) / 8,
    ensures
        index_bits_fit(i, total_bits, byte_count),
{
    assert((i + 1) * total_bits <= count * total_bits) by (nonlinear_arith)
        requires
            i < count,
            total_bits > 0,
    ;
    assert(count * total_bits <= byte_count * 8) by (nonlinear_arith)
        requires
            byte_count == (count * total_bits + 7) / 8,
    ;
}

/// Checks quantizer options: a positive dimension and cluster count,
/// `total_bits` in `1..=9`, and an L2, inner-product or cosine metric.
pub fn validate_options(
    dimension: usize,
    total_bits: usize,
    requested_clusters: usize,
    metric: MetricType,
) -> (r: Result<()>)
    ensures
        (dimension == 0 || requested_clusters == 0 || !(1 <= total_bits <= 9)) ==> (r matches Err(
            e,
        ) && e.code == ErrorCode::InvalidArgument),
        !(dimension == 0 || requested_clusters == 0 || !(1 <= total_bits <= 9)) && !(metric
            == MetricType::L2 || metric == MetricType::Ip || metric == MetricType::Cosine) ==> (
        r matches Err(e) && e.code == ErrorCode::NotSupported),
        !(dimension == 0 || requested_clusters == 0 || !(1 <= total_bits <= 9)) && (metric
            == MetricType::L2 || metric == MetricType::Ip || metric == MetricType::Cosine) ==> r
            is Ok,
{
    if dimension == 0 || requested_clusters == 0 || !(1 <= total_bits && total_bits <= 9) {
        return Err(
            Error::invalid_argument(
                "RaBitQ requires a positive dimension and cluster count with total_bits in 1..=9",
            ),
        );
    }
    match metric {
        MetricType::L2 | MetricType::Ip | MetricType::Cosine => Ok(()),
        _ => Err(Error::not_supported("RaBitQ supports L2, inner-product, and cosine metrics")),
    }
}

/// The byte count `packed_bytes` returns: the exact count where the bit
/// count fits, else the saturated one.
pub open spec fn saturated_packed_bytes(dimension: int, total_bits: int) -> int {
    if dimension * total_bits + 7 <= usize::MAX {
        spec_packed_bytes(dimension, total_bits)
    } else {
        usize::MAX as int / 8
    }
}

/// Whether `bits` is the pattern of a finite `f64`.
pub open spec fn f64_bits_finite(bits: u64) -> bool {
    bits % 0x8000_0000_0000_0000 < 0x7ff0_0000_0000_0000
}

/// One encoded vector: its nearest centroid, the packed codes, and two
/// `f64` correction factors kept as bit patterns.
pub struct RabitqCode {
    pub center: u32,
    pub packed: Vec<u8>,
    pub scale_bits: u64,
    pub l2_add_bits: u64,
}

/// A trained RaBitQ quantizer: its options, rotation, centroids (`f32`
/// patterns) and one code per vector ordinal.
pub struct RabitqQuantizer {
    pub metric: MetricType,
    pub total_bits: usize,
    pub requested_clusters: usize,
    pub sample_count: usize,
    pub rotation: RabitqRotation,
    pub centroids: Vec<Vec<u32>>,
    pub codes: OrdinalMap<RabitqCode>,
}

/// Whether `code` fits a quantizer with `centroid_count` centroids whose
/// codes pack `code_bytes` bytes: a known centroid, the right length, a
/// finite scale not below zero and a finite offset.
pub open spec fn code_fits(code: RabitqCode, centroid_count: int, code_bytes: int) -> bool {
    &&& (code.center as int) < centroid_count
    &&& code.packed@.len() == code_bytes
    &&& f64_bits_nonnegative_finite(code.scale_bits)
    &&& f64_bits_finite(code.l2_add_bits)
}

impl RabitqQuantizer {
    /// Whether the quantizer is the one training over `vectors` with these
    /// options produces in shape: the same options, the rotation for
    /// `dimension`, one finite `dimension`-long centroid per cluster
    /// (`requested_clusters`, at most one per vector), and a fitting code
    /// for exactly the vector ordinals.
    pub open spec fn spec_validates(
        &self,
        vectors: OrdinalMap<QuantizedVector>,
        dimension: usize,
        total_bits: usize,
        requested_clusters: usize,
        sample_count: usize,
        metric: MetricType,
    ) -> bool {
        let expected = if requested_clusters <= vectors.recorded_len() {
            requested_clusters as int
        } else {
            vectors.recorded_len() as int
        };
        let code_bytes = saturated_packed_bytes(self.rotation.spec_padded_dimension() as int, total_bits as int);
        &&& self.metric == metric
        &&& self.total_bits == total_bits
        &&& self.requested_clusters == requested_clusters
        &&& self.sample_count == sample_count
        &&& self.rotation.spec_validates(dimension)
        &&& self.centroids@.len() == expected
        &&& forall|c: int|
            0 <= c < self.centroids@.len() ==> (#[trigger] self.centroids@[c])@.len() == dimension && forall|i: int|
                0 <= i < self.centroids@[c]@.len() ==> f32_pattern_finite(#[trigger] self.centroids@[c]@[i])
        &&& self.codes.slots().len() <= vectors.slots().len()
        &&& self.codes.well_formed()
        &&& self.codes@.dom() == vectors@.dom()
        &&& forall|ordinal: u64| #[trigger]
            self.codes@.contains_key(ordinal) ==> code_fits(self.codes@[ordinal], self.centroids@.len() as int, code_bytes)
    }

    /// Whether the quantizer fits `vectors` and the options (see
    /// `spec_validates`).
    pub fn validates(
        &self,
        vectors: &OrdinalMap<QuantizedVector>,
        dimension: usize,
        total_bits: usize,
        requested_clusters: usize,
        sample_count: usize,
        metric: MetricType,
    ) -> (r: bool)
        ensures
            r == self.spec_validates(*vectors, dimension, total_bits, requested_clusters, sample_count, metric),
    {
        let expected = if requested_clusters <= vectors.len() {
            requested_clusters
        } else {
            vectors.len()
        };
        if !(self.metric == metric && self.total_bits == total_bits && self.requested_clusters
            == requested_clusters && self.sample_count == sample_count && self.rotation.validates(
            dimension,
        ) && self.centroids.len() == expected) {
            return false;
        }
        let mut c: usize = 0;
        while c < self.centroids.len()
            invariant
                c <= self.centroids@.len(),
                forall|j: int|
                    0 <= j < c ==> (#[trigger] self.centroids@[j])@.len() == dimension && forall|i: int|
                        0 <= i < self.centroids@[j]@.len() ==> f32_pattern_finite(#[trigger] self.centroids@[j]@[i]),
            decreases self.centroids@.len() - c,
        {
            if self.centroids[c].len() != dimension || !all_patterns_finite(&self.centroids[c]) {
                return false;
            }
            c = c + 1;
        }
        if !self.codes.validates(vectors.slot_count()) || !same_ordinals(&self.codes, vectors) {
            return false;
        }
        let code_bytes = packed_bytes(self.rotation.padded_dimension(), total_bits);
        let centroid_count = self.centroids.len();
        let codes = self.codes.values();
        let ghost ordinals = crate::index::ordinal_map::ordered_ordinals(self.codes.slots());
        let keys = self.codes.keys();
        let mut k: usize = 0;
        while k < codes.len()
            invariant
                k <= codes@.len(),
                codes@.len() == ordinals.len(),
                keys@ == ordinals,
                forall|o: u64| #[trigger] keys@.contains(o) <==> self.codes@.contains_key(o),
                forall|i: int| 0 <= i < codes@.len() ==> *#[trigger] codes@[i] == self.codes@[ordinals[i]],
                centroid_count == self.centroids@.len(),
                code_bytes == saturated_packed_bytes(self.rotation.spec_padded_dimension() as int, total_bits as int),
                forall|i: int| 0 <= i < k ==> code_fits(self.codes@[#[trigger] ordinals[i]], centroid_count as int, code_bytes as int),
            decreases codes@.len() - k,
        {
            let code = codes[k];
            if !((code.center as usize) < centroid_count && code.packed.len() == code_bytes && (
            code.scale_bits < 0x7ff0_0000_0000_0000 || code.scale_bits == 0x8000_0000_0000_0000)
                && code.l2_add_bits % 0x8000_0000_0000_0000 < 0x7ff0_0000_0000_0000) {
                proof {
                    assert(keys@.contains(ordinals[k as int]));
                    assert(!code_fits(self.codes@[ordinals[k as int]], centroid_count as int, code_bytes as int));
                }
                return false;
            }
            k = k + 1;
        }
        proof {
            assert forall|ordinal: u64| #[trigger] self.codes@.contains_key(ordinal) implies code_fits(
                self.codes@[ordinal],
                centroid_count as int,
                code_bytes as int,
            ) by {
                assert(keys@.contains(ordinal));
                let i = choose|i: int| 0 <= i < keys@.len() && keys@[i] == ordinal;
                assert(code_fits(self.codes@[ordinals[i]], centroid_count as int, code_bytes as int));
            }
        }
        true
    }
}

} // verus!
