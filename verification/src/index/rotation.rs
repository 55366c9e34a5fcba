//! Deterministic portable random rotation parameters for `RaBitQ`.

use crate::error::{Error, ErrorCode, Result};
use vstd::prelude::*;

verus! {

/// Seed mixed with the dimension to choose the rotation's random signs.
pub const ROTATION_SEED: u64 = 0xa35e_c971_4b17_d20f;

/// Number of sign-flip and Hadamard rounds applied by a rotation.
pub const ROTATION_ROUNDS: u64 = 4;

/// The SplitMix64 output function.
pub open spec fn spec_splitmix64(value: u64) -> u64 {
    let a = value.wrapping_add(0x9e37_79b9_7f4a_7c15);
    let b = (a ^ (a >> 30u64)).wrapping_mul(0xbf58_476d_1ce4_e5b9);
    let c = (b ^ (b >> 27u64)).wrapping_mul(0x94d0_49bb_1331_11eb);
    c ^ (c >> 31u64)
}

/// One step of the SplitMix64 generator.
pub fn splitmix64(value: u64) -> (r: u64)
    ensures
        r == spec_splitmix64(value),
{
    let mut value = value.wrapping_add(0x9e37_79b9_7f4a_7c15);
    value = (value ^ (value >> 30)).wrapping_mul(0xbf58_476d_1ce4_e5b9);
    value = (value ^ (value >> 27)).wrapping_mul(0x94d0_49bb_1331_11eb);
    value ^ (value >> 31)
}

/// Whether `p` is a power of two.
pub open spec fn is_power_of_two(p: int) -> bool
    decreases p,
{
    if p <= 0 {
        false
    } else if p == 1 {
        true
    } else {
        p % 2 == 0 && is_power_of_two(p / 2)
    }
}

/// The smallest power of two at or above `n`, or `None` when it does not fit
/// in `usize`.
pub fn checked_next_power_of_two(n: usize) -> (r: Option<usize>)
    ensures
        r matches Some(p) ==> is_power_of_two(p as int) && n <= p && (p == 1 || p / 2 < n),
        r is None ==> forall|p: int| #[trigger] is_power_of_two(p) && n <= p ==> p > usize::MAX,
{
    let mut power: usize = 1;
    while power < n
        invariant
            is_power_of_two(power as int),
            power == 1 || power / 2 < n,
        decreases usize::MAX - power,
    {
        if power > usize::MAX / 2 {
            proof {
                assert forall|p: int| #[trigger] is_power_of_two(p) && n <= p implies p > usize::MAX by {
                    lemma_powers_between(power as int, p);
                }
            }
            return None;
        }
        power = power * 2;
    }
    Some(power)
}

/// Two powers of two are either equal or at least a factor of two apart.
proof fn lemma_powers_between(small: int, large: int)
    requires
        is_power_of_two(small),
        is_power_of_two(large),
        small < large,
    ensures
        large >= 2 * small,
    decreases large,
{
    if small > 1 {
        lemma_powers_between(small / 2, large / 2);
    } else {
        assert(large % 2 == 0);
    }
}

proof fn lemma_pow2_is_power(e: nat)
    ensures
        is_power_of_two(vstd::arithmetic::power2::pow2(e) as int),
    decreases e,
{
    vstd::arithmetic::power2::lemma_pow2_pos(e);
    if e > 0 {
        let half = vstd::arithmetic::power2::pow2((e - 1) as nat) as int;
        let p = vstd::arithmetic::power2::pow2(e) as int;
        lemma_pow2_is_power((e - 1) as nat);
        vstd::arithmetic::power2::lemma_pow2_unfold(e);
        vstd::arithmetic::power2::lemma_pow2_pos((e - 1) as nat);
        assert(p == 2 * half);
        assert(p > 1);
        assert(p % 2 == 0);
        assert(p / 2 == half);
    } else {
        vstd::arithmetic::power2::lemma2_to64();
    }
}

proof fn lemma_half_max_is_power()
    ensures
        is_power_of_two(usize::MAX / 2 + 1),
{
    vstd::arithmetic::power2::lemma2_to64();
    if usize::MAX == u32::MAX {
        lemma_pow2_is_power(31);
        assert(vstd::arithmetic::power2::pow2(31) == usize::MAX / 2 + 1);
    } else {
        assert(usize::MAX == u64::MAX);
        vstd::arithmetic::power2::lemma2_to64_rest();
        lemma_pow2_is_power(63);
        assert(vstd::arithmetic::power2::pow2(63) == usize::MAX / 2 + 1);
    }
}

/// A power of two at or above `n` whose half is below `n` is unique.
proof fn lemma_next_power_unique(n: int, p: int, q: int)
    requires
        is_power_of_two(p),
        is_power_of_two(q),
        n <= p,
        n <= q,
        p == 1 || p / 2 < n,
        q == 1 || q / 2 < n,
    ensures
        p == q,
{
    if p < q {
        lemma_powers_between(p, q);
    } else if q < p {
        lemma_powers_between(q, p);
    }
}

/// Parameters of a deterministic random rotation: the input dimension, the
/// power-of-two dimension it is padded to, and the sign seed.
#[derive(Debug, Clone, PartialEq, Eq, Structural)]
pub struct RabitqRotation {
    dimension: usize,
    padded_dimension: usize,
    seed: u64,
}

impl RabitqRotation {
    pub closed spec fn spec_dimension(&self) -> usize {
        self.dimension
    }

    pub closed spec fn spec_padded_dimension(&self) -> usize {
        self.padded_dimension
    }

    pub closed spec fn spec_seed(&self) -> u64 {
        self.seed
    }

    /// The rotation for `dimension`: rejects a zero dimension, pads to the
    /// next power of two, and seeds the signs from the dimension.
    pub fn new(dimension: usize) -> (r: Result<Self>)
        ensures
            dimension == 0 ==> (r matches Err(e) && e.code == ErrorCode::InvalidArgument),
            r matches Ok(rotation) ==> rotation.spec_dimension() == dimension
                && is_power_of_two(rotation.spec_padded_dimension() as int) && dimension
                <= rotation.spec_padded_dimension() && (rotation.spec_padded_dimension() == 1
                || rotation.spec_padded_dimension() / 2 < dimension) && rotation.spec_seed() == (
            ROTATION_SEED ^ (dimension as u64)),
            dimension > 0 && (r is Err) ==> (r matches Err(e) && e.code
                == ErrorCode::ResourceExhausted && dimension > usize::MAX / 2 + 1),
    {
        if dimension == 0 {
            return Err(Error::invalid_argument("RaBitQ vector dimension must be positive"));
        }
        let padded_dimension = match checked_next_power_of_two(dimension) {
            Some(value) => value,
            None => {
                proof {
                    if dimension <= usize::MAX / 2 + 1 {
                        lemma_half_max_is_power();
                    }
                }
                return Err(
                    Error::resource_exhausted("RaBitQ padded dimension exceeds this platform"),
                );
            },
        };
        Ok(Self { dimension, padded_dimension, seed: ROTATION_SEED ^ (dimension as u64) })
    }

    /// The input dimension.
    pub fn dimension(&self) -> (r: usize)
        ensures
            r == self.spec_dimension(),
    {
        self.dimension
    }

    /// The power-of-two dimension the rotation works in.
    pub fn padded_dimension(&self) -> (r: usize)
        ensures
            r == self.spec_padded_dimension(),
    {
        self.padded_dimension
    }

    /// The seed of the random signs.
    pub fn seed(&self) -> (r: u64)
        ensures
            r == self.spec_seed(),
    {
        self.seed
    }

    /// Bytes a rotation occupies in an index payload estimate.
    pub fn estimated_payload_bytes() -> (r: usize)
        ensures
            r as nat == vstd::layout::size_of::<RabitqRotation>(),
    {
        core::mem::size_of::<RabitqRotation>()
    }

    /// Whether this rotation is exactly the one `new(dimension)` builds: a
    /// positive dimension, the smallest power of two that holds it, and the
    /// seed derived from it.
    pub open spec fn spec_validates(&self, dimension: usize) -> bool {
        &&& dimension > 0
        &&& self.spec_dimension() == dimension
        &&& is_power_of_two(self.spec_padded_dimension() as int)
        &&& dimension <= self.spec_padded_dimension()
        &&& (self.spec_padded_dimension() == 1 || self.spec_padded_dimension() / 2 < dimension)
        &&& self.spec_seed() == (ROTATION_SEED ^ (dimension as u64))
    }

    /// Whether this rotation is exactly the one `new(dimension)` builds.
    pub fn validates(&self, dimension: usize) -> (r: bool)
        ensures
            r == self.spec_validates(dimension),
    {
        match Self::new(dimension) {
            Ok(expected) => {
                proof {
                    if is_power_of_two(self.padded_dimension as int) && dimension
                        <= self.padded_dimension && (self.padded_dimension == 1
                        || self.padded_dimension / 2 < dimension) {
                        lemma_next_power_unique(
                            dimension as int,
                            self.padded_dimension as int,
                            expected.padded_dimension as int,
                        );
                    }
                }
                expected.dimension == self.dimension && expected.padded_dimension
                    == self.padded_dimension && expected.seed == self.seed
            },
            Err(_) => {
                proof {
                    if dimension > 0 && is_power_of_two(self.padded_dimension as int) && dimension
                        <= self.padded_dimension {
                        lemma_half_max_is_power();
                        if self.padded_dimension > usize::MAX / 2 + 1 {
                            lemma_powers_between(
                                usize::MAX / 2 + 1,
                                self.padded_dimension as int,
                            );
                        }
                    }
                }
                false
            },
        }
    }
}

} // verus!
