//! Index-only scalar quantization: how quantized vectors are stored and
//! checked. Coordinates and scales are kept as IEEE-754 bit patterns; the
//! float arithmetic that produces the codes happens outside this library.

use vstd::prelude::*;

verus! {

/// The four-bit two's-complement pattern of a code in `-8..=7`.
pub open spec fn nibble_of(code: int) -> int {
    if code < 0 {
        code + 16
    } else {
        code
    }
}

/// The signed value of a four-bit pattern.
pub open spec fn signed_nibble(n: int) -> int {
    if n > 7 {
        n - 16
    } else {
        n
    }
}

/// The byte holding codes `low` and `high`, low code in the low nibble.
pub open spec fn packed_pair(low: int, high: int) -> int {
    nibble_of(low) + 16 * nibble_of(high)
}

/// The four-bit code at position `i` of packed bytes: even positions in the
/// low nibble, odd ones in the high nibble.
pub open spec fn nibble_at(bytes: Seq<u8>, i: int) -> int {
    let byte = bytes[i / 2] as int;
    signed_nibble(if i % 2 == 0 {
        byte % 16
    } else {
        byte / 16
    })
}

/// Whether every code fits four signed bits.
pub open spec fn codes_fit_nibbles(codes: Seq<i8>) -> bool {
    forall|i: int| 0 <= i < codes.len() ==> -8 <= #[trigger] codes[i] <= 7
}

/// The bytes of `codes` packed two per byte, the last byte holding only a
/// low nibble when the count is odd.
pub open spec fn packed_codes(codes: Seq<i8>) -> Seq<u8> {
    Seq::new(
        ((codes.len() + 1) / 2) as nat,
        |j: int|
            if 2 * j + 1 < codes.len() {
                packed_pair(codes[2 * j] as int, codes[2 * j + 1] as int) as u8
            } else {
                nibble_of(codes[2 * j] as int) as u8
            },
    )
}

/// The signed value of the low four bits of `pattern` (a value below 16).
pub fn nibble_value(pattern: u8) -> (r: i8)
    requires
        pattern < 16,
    ensures
        r == signed_nibble(pattern as int),
{
    if pattern > 7 {
        pattern as i8 - 16
    } else {
        pattern as i8
    }
}

/// Packs codes in `-8..=7` two per byte.
pub fn pack_nibbles(codes: &[i8]) -> (r: Vec<u8>)
    requires
        codes_fit_nibbles(codes@),
    ensures
        r@ == packed_codes(codes@),
{
    let mut out: Vec<u8> = Vec::new();
    let mut index: usize = 0;
    while index + 1 < codes.len()
        invariant
            index % 2 == 0,
            index <= codes@.len(),
            codes_fit_nibbles(codes@),
            out@.len() == index / 2,
            forall|j: int| 0 <= j < out@.len() ==> #[trigger] out@[j] == packed_codes(codes@)[j],
        decreases codes@.len() - index,
    {
        let low = codes[index];
        let high = codes[index + 1];
        let low_pattern: u8 = if low < 0 {
            (low + 16) as u8
        } else {
            low as u8
        };
        let high_pattern: u8 = if high < 0 {
            (high + 16) as u8
        } else {
            high as u8
        };
        out.push(low_pattern + 16 * high_pattern);
        index = index + 2;
    }
    if index < codes.len() {
        let low = codes[index];
        let low_pattern: u8 = if low < 0 {
            (low + 16) as u8
        } else {
            low as u8
        };
        out.push(low_pattern);
    }
    proof {
        assert(out@ =~= packed_codes(codes@));
    }
    out
}

/// The first `dimension` codes of packed bytes (fewer when the bytes hold
/// fewer).
pub fn unpack_nibbles(nibbles: &[u8], dimension: usize) -> (r: Vec<i8>)
    ensures
        r@.len() == if dimension <= 2 * nibbles@.len() {
            dimension as int
        } else {
            2 * nibbles@.len() as int
        },
        forall|i: int| 0 <= i < r@.len() ==> #[trigger] r@[i] == nibble_at(nibbles@, i),
{
    let mut out: Vec<i8> = Vec::new();
    let mut byte_index: usize = 0;
    while byte_index < nibbles.len() && out.len() < dimension
        invariant
            byte_index <= nibbles@.len(),
            out@.len() <= dimension,
            out@.len() == if 2 * byte_index <= dimension {
                2 * byte_index as int
            } else {
                dimension as int
            },
            forall|i: int| 0 <= i < out@.len() ==> #[trigger] out@[i] == nibble_at(nibbles@, i),
        decreases nibbles@.len() - byte_index,
    {
        let byte = nibbles[byte_index];
        proof {
            assert(out@.len() == 2 * byte_index);
        }
        out.push(nibble_value(byte % 16));
        if out.len() < dimension {
            out.push(nibble_value(byte / 16));
        }
        byte_index = byte_index + 1;
    }
    out
}

/// Unpacking packed codes gives them back.
pub proof fn law_unpack_after_pack(codes: Seq<i8>)
    requires
        codes_fit_nibbles(codes),
    ensures
        packed_codes(codes).len() * 2 >= codes.len(),
        forall|i: int| 0 <= i < codes.len() ==> nibble_at(packed_codes(codes), i) == codes[i],
{
    let bytes = packed_codes(codes);
    assert forall|i: int| 0 <= i < codes.len() implies nibble_at(bytes, i) == codes[i] by {
        let j = i / 2;
        assert(0 <= j < bytes.len());
        if 2 * j + 1 < codes.len() {
            let low = nibble_of(codes[2 * j] as int);
            let high = nibble_of(codes[2 * j + 1] as int);
            assert(bytes[j] as int == low + 16 * high);
            assert((low + 16 * high) % 16 == low) by (nonlinear_arith)
                requires
                    0 <= low < 16,
                    0 <= high < 16,
            ;
            assert((low + 16 * high) / 16 == high) by (nonlinear_arith)
                requires
                    0 <= low < 16,
                    0 <= high < 16,
            ;
        }
    }
}

/// Whether `bits` is the pattern of a finite `f32` that is not below zero
/// (`-0.0` included).
pub open spec fn f32_bits_nonnegative_finite(bits: u32) -> bool {
    bits < 0x7f80_0000 || bits == 0x8000_0000
}

/// Whether `bits` is the pattern of a finite `f32`.
pub open spec fn f32_pattern_finite(bits: u32) -> bool {
    bits % 0x8000_0000 < 0x7f80_0000
}

/// Whether `bits` is the pattern of a finite IEEE-754 half-precision value.
pub open spec fn fp16_bits_finite(bits: u16) -> bool {
    bits % 0x8000 < 0x7c00
}

/// Whether every pattern is that of a finite `f32`.
pub(crate) fn all_patterns_finite(values: &[u32]) -> (r: bool)
    ensures
        r == forall|i: int| 0 <= i < values@.len() ==> f32_pattern_finite(#[trigger] values@[i]),
{
    let mut i: usize = 0;
    while i < values.len()
        invariant
            i <= values@.len(),
            forall|j: int| 0 <= j < i ==> f32_pattern_finite(#[trigger] values@[j]),
        decreases values@.len() - i,
    {
        if !(values[i] % 0x8000_0000 < 0x7f80_0000) {
            assert(!f32_pattern_finite(values@[i as int]));
            return false;
        }
        i = i + 1;
    }
    true
}

/// Whether every pattern is that of a finite half-precision value.
fn all_halves_finite(values: &[u16]) -> (r: bool)
    ensures
        r == forall|i: int| 0 <= i < values@.len() ==> fp16_bits_finite(#[trigger] values@[i]),
{
    let mut i: usize = 0;
    while i < values.len()
        invariant
            i <= values@.len(),
            forall|j: int| 0 <= j < i ==> fp16_bits_finite(#[trigger] values@[j]),
        decreases values@.len() - i,
    {
        if !(values[i] % 0x8000 < 0x7c00) {
            assert(!fp16_bits_finite(values@[i as int]));
            return false;
        }
        i = i + 1;
    }
    true
}


/// The largest finite half-precision magnitude, as `f32` bits (65504).
pub const FP16_MAX_F32_BITS: u32 = 0x477f_e000;

/// The half-precision pattern for an `f32` pattern of magnitude at most
/// 65504, rounding to nearest with ties to even: the sign moves to bit 15;
/// magnitudes below 2^-25 (and zero) become a signed zero; below 2^-14 the
/// value becomes a subnormal half (the 24-bit significand shifted right by
/// `126 - exponent`); otherwise the exponent is rebased by 112 and the
/// significand keeps its top ten bits. Dropped bits above half a unit round
/// up, exactly half rounds to an even result.
pub open spec fn spec_fp16_from_f32_bits(bits: u32) -> u16 {
    let sign = (bits >> 16u32) & 0x8000u32;
    let exponent = (bits >> 23u32) & 0xffu32;
    let mantissa = bits & 0x007f_ffffu32;
    if exponent < 102 {
        sign as u16
    } else if exponent < 113 {
        let shift = (126 - exponent) as u32;
        let full = mantissa | 0x0080_0000u32;
        let half = full >> shift;
        let remainder = full & ((1u32 << shift) - 1) as u32;
        let midpoint = 1u32 << (shift - 1) as u32;
        let rounded = if remainder > midpoint || (remainder == midpoint && half & 1 == 1) {
            (half + 1) as u32
        } else {
            half
        };
        (sign | rounded) as u16
    } else {
        let half = (((exponent - 112) as u32) << 10u32) | (mantissa >> 13u32);
        let remainder = mantissa & 0x1fffu32;
        let rounded = if remainder > 0x1000 || (remainder == 0x1000 && half & 1 == 1) {
            (half + 1) as u32
        } else {
            half
        };
        (sign | rounded) as u16
    }
}

/// The half-precision pattern of an `f32` pattern within the FP16 range
/// (see `spec_fp16_from_f32_bits`).
pub fn fp16_from_f32_bits(bits: u32) -> (r: u16)
    requires
        bits & 0x7fff_ffff <= FP16_MAX_F32_BITS,
    ensures
        r == spec_fp16_from_f32_bits(bits),
{
    let sign = (bits >> 16) & 0x8000;
    let exponent = (bits >> 23) & 0xff;
    let mantissa = bits & 0x007f_ffff;
    assert(mantissa <= 0x007f_ffffu32) by (bit_vector)
        requires
            mantissa == bits & 0x007f_ffffu32,
    ;
    if exponent < 102 {
        return sign as u16;
    }
    if exponent < 113 {
        let shift: u32 = 126 - exponent;
        let full = mantissa | 0x0080_0000;
        let half = full >> shift;
        assert(full >> shift < 0x0100_0000u32) by (bit_vector)
            requires
                full == mantissa | 0x0080_0000u32,
                mantissa <= 0x007f_ffffu32,
        ;
        assert(1u32 << shift >= 1u32) by (bit_vector)
            requires
                14 <= shift <= 24,
        ;
        let remainder = full & ((1u32 << shift) - 1);
        let midpoint = 1u32 << (shift - 1);
        let rounded = if remainder > midpoint || (remainder == midpoint && half & 1 == 1) {
            half + 1
        } else {
            half
        };
        return (sign | rounded) as u16;
    }
    assert(exponent <= 142) by (bit_vector)
        requires
            bits & 0x7fff_ffffu32 <= 0x477f_e000u32,
            exponent == (bits >> 23u32) & 0xffu32,
    ;
    let half = ((exponent - 112) << 10) | (mantissa >> 13);
    assert(((exponent - 112) as u32) << 10u32 | (mantissa >> 13u32) < 0x8000u32) by (bit_vector)
        requires
            113 <= exponent <= 142,
            mantissa <= 0x007f_ffffu32,
    ;
    let remainder = mantissa & 0x1fff;
    let rounded = if remainder > 0x1000 || (remainder == 0x1000 && half & 1 == 1) {
        half + 1
    } else {
        half
    };
    (sign | rounded) as u16
}

/// A quantized copy of an index vector: plain `f32` patterns, half-precision
/// patterns, symmetric INT8 codes with a scale, or INT4 codes packed two per
/// byte with a scale and the vector's dimension. Scales are `f32` patterns.
#[derive(Debug, Clone, PartialEq, Eq)]
pub enum QuantizedVector {
    F32(Vec<u32>),
    Fp16(Vec<u16>),
    Int8 { codes: Vec<i8>, scale_bits: u32 },
    Int4 { nibbles: Vec<u8>, scale_bits: u32, dimension: usize },
}

impl QuantizedVector {
    /// The bytes the encoding occupies: four per `f32`, two per half, one
    /// per INT8 code or packed INT4 byte plus a four-byte scale.
    pub open spec fn spec_encoded_bytes(&self) -> int {
        match self {
            QuantizedVector::F32(values) => values@.len() as int * 4,
            QuantizedVector::Fp16(values) => values@.len() as int * 2,
            QuantizedVector::Int8 { codes, .. } => codes@.len() as int + 4,
            QuantizedVector::Int4 { nibbles, .. } => nibbles@.len() as int + 4,
        }
    }
}

impl QuantizedVector {
    /// The bytes the encoding occupies (see `spec_encoded_bytes`).
    pub fn encoded_bytes(&self) -> (r: usize)
        requires
            self.spec_encoded_bytes() <= usize::MAX,
        ensures
            r == self.spec_encoded_bytes(),
    {
        match self {
            QuantizedVector::F32(values) => values.len() * 4,
            QuantizedVector::Fp16(values) => values.len() * 2,
            QuantizedVector::Int8 { codes, .. } => codes.len() + 4,
            QuantizedVector::Int4 { nibbles, .. } => nibbles.len() + 4,
        }
    }

    /// Whether the encoding holds a `dimension`-long vector with finite
    /// values and a finite scale that is not below zero.
    pub fn validates(&self, dimension: usize) -> (r: bool)
        ensures
            r == match self {
                QuantizedVector::F32(values) => values@.len() == dimension && forall|i: int|
                    0 <= i < values@.len() ==> f32_pattern_finite(#[trigger] values@[i]),
                QuantizedVector::Fp16(values) => values@.len() == dimension && forall|i: int|
                    0 <= i < values@.len() ==> fp16_bits_finite(#[trigger] values@[i]),
                QuantizedVector::Int8 { codes, scale_bits } => codes@.len() == dimension
                    && f32_bits_nonnegative_finite(*scale_bits),
                QuantizedVector::Int4 { nibbles, scale_bits, dimension: encoded } => *encoded
                    == dimension && nibbles@.len() == (if dimension < usize::MAX {
                    dimension + 1
                } else {
                    dimension as int
                }) / 2
                    && f32_bits_nonnegative_finite(*scale_bits),
            },
    {
        match self {
            QuantizedVector::F32(values) => values.len() == dimension && all_patterns_finite(
                values,
            ),
            QuantizedVector::Fp16(values) => values.len() == dimension && all_halves_finite(
                values,
            ),
            QuantizedVector::Int8 { codes, scale_bits } => codes.len() == dimension && (*scale_bits
                < 0x7f80_0000 || *scale_bits == 0x8000_0000),
            QuantizedVector::Int4 { nibbles, scale_bits, dimension: encoded } => *encoded
                == dimension && nibbles.len() == (if dimension < usize::MAX {
                dimension + 1
            } else {
                dimension
            }) / 2 && (*scale_bits
                < 0x7f80_0000 || *scale_bits == 0x8000_0000),
        }
    }
}

} // verus!
