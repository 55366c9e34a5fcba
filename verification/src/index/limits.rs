//! Candidate and compaction limits shared by the index registry.

use vstd::prelude::*;

verus! {

/// Fewest overlay changes that trigger folding into a new base.
pub const MIN_DELTA_COMPACTION: usize = 64;

/// Most overlay changes tolerated before folding into a new base.
pub const MAX_DELTA_COMPACTION: usize = 2048;

/// The overlay may grow to one eighth of its base before folding.
pub const DELTA_COMPACTION_DIVISOR: usize = 8;

/// The overlay size at which a base of `base_len` entries is rebuilt:
/// `ceil(base_len / 8)` clamped to `64..=2048`.
pub open spec fn spec_compaction_limit(base_len: int) -> int {
    let fractional = if base_len + 7 <= usize::MAX {
        (base_len + 7) / 8
    } else {
        usize::MAX as int / 8
    };
    if fractional < 64 {
        64
    } else if fractional > 2048 {
        2048
    } else {
        fractional
    }
}

/// The overlay size at which a base of `base_len` entries is rebuilt.
pub fn delta_compaction_limit(base_len: usize) -> (r: usize)
    ensures
        r == spec_compaction_limit(base_len as int),
        MIN_DELTA_COMPACTION <= r <= MAX_DELTA_COMPACTION,
{
    let fractional = base_len.saturating_add(DELTA_COMPACTION_DIVISOR - 1)
        / DELTA_COMPACTION_DIVISOR;
    if fractional < MIN_DELTA_COMPACTION {
        MIN_DELTA_COMPACTION
    } else if fractional > MAX_DELTA_COMPACTION {
        MAX_DELTA_COMPACTION
    } else {
        fractional
    }
}

/// Narrows a bitmap cardinality to `usize`, saturating.
pub fn bitmap_count_to_usize(count: u64) -> (r: usize)
    ensures
        r == if count as int <= usize::MAX {
            count as int
        } else {
            usize::MAX as int
        },
{
    if count as u128 <= usize::MAX as u128 {
        count as usize
    } else {
        usize::MAX
    }
}

/// The candidate budget scaled from the eligible subset up to the whole
/// population: `ceil(target * population / eligible)`, capped at
/// `population`; zero when any input is zero.
pub open spec fn spec_proportional_candidate_limit(
    target: int,
    population: int,
    eligible: int,
) -> int {
    if target == 0 || population == 0 || eligible == 0 {
        0
    } else {
        let scaled = (target * population + eligible - 1) / eligible;
        if scaled < population {
            scaled
        } else {
            population
        }
    }
}

/// Scales a candidate budget for a filter that admits `eligible` of
/// `population` vectors.
pub fn proportional_candidate_limit(target: usize, population: usize, eligible: usize) -> (r:
    usize)
    ensures
        r == spec_proportional_candidate_limit(target as int, population as int, eligible as int),
        r <= population,
{
    if target == 0 || population == 0 || eligible == 0 {
        return 0;
    }
    let target = target as u128;
    let population_wide = population as u128;
    let eligible_wide = eligible as u128;
    assert(target * population_wide <= u64::MAX * u64::MAX) by (nonlinear_arith)
        requires
            target <= u64::MAX,
            population_wide <= u64::MAX,
    ;
    let product = target * population_wide;
    let scaled = (product + (eligible_wide - 1)) / eligible_wide;
    if scaled < population_wide {
        scaled as usize
    } else {
        population
    }
}

/// The smallest root whose square reaches `value` (at least one).
pub fn integer_sqrt_ceil(value: usize) -> (r: usize)
    ensures
        r >= 1,
        r * r >= value,
        r == 1 || (r - 1) * (r - 1) < value,
{
    let mut root: usize = 1;
    loop
        invariant
            root >= 1,
            root == 1 || (root - 1) * (root - 1) < value,
            root <= value + 1,
        ensures
            root >= 1,
            root * root >= value,
            root == 1 || (root - 1) * (root - 1) < value,
        decreases value + 1 - root,
    {
        let wide = root as u128;
        assert(wide * wide <= u64::MAX * u64::MAX) by (nonlinear_arith)
            requires
                wide <= u64::MAX,
        ;
        if wide * wide >= value as u128 {
            break;
        }
        assert(root < value) by (nonlinear_arith)
            requires
                root * root < value,
                root >= 1,
        ;
        root = root + 1;
    }
    root
}

/// Checks a product-quantization shape: between one chunk and one chunk per
/// dimension.
pub fn validate_shape(dimension: usize, chunk_count: usize) -> (r: crate::error::Result<()>)
    ensures
        (dimension == 0 || chunk_count == 0 || chunk_count > dimension) ==> (r matches Err(e)
            && e.code == crate::error::ErrorCode::InvalidArgument),
        !(dimension == 0 || chunk_count == 0 || chunk_count > dimension) ==> r is Ok,
{
    if dimension == 0 || chunk_count == 0 || chunk_count > dimension {
        return Err(
            crate::error::Error::invalid_argument(
                "PQ chunk count must be between one and the vector dimension",
            ),
        );
    }
    Ok(())
}

/// `left * right`, saturating at `usize::MAX`.
pub open spec fn saturating_product(left: int, right: int) -> int {
    if left * right <= usize::MAX {
        left * right
    } else {
        usize::MAX as int
    }
}

/// Chunk boundaries that split `dimension` coordinates into `chunk_count`
/// nearly equal chunks: `offsets[c] = c * dimension / chunk_count`, with a
/// saturating product and a divisor of at least one.
pub fn balanced_offsets(dimension: usize, chunk_count: usize) -> (r: Vec<usize>)
    requires
        chunk_count < usize::MAX,
    ensures
        r@.len() == chunk_count + 1,
        forall|c: int|
            0 <= c <= chunk_count ==> #[trigger] r@[c] == saturating_product(c, dimension as int)
                / if chunk_count == 0 {
                1
            } else {
                chunk_count as int
            },
{
    let divisor = if chunk_count == 0 {
        1
    } else {
        chunk_count
    };
    let mut offsets: Vec<usize> = Vec::new();
    let mut chunk: usize = 0;
    while chunk <= chunk_count
        invariant
            chunk <= chunk_count + 1,
            chunk_count < usize::MAX,
            divisor == if chunk_count == 0 {
                1
            } else {
                chunk_count
            },
            offsets@.len() == chunk,
            forall|c: int|
                0 <= c < chunk ==> #[trigger] offsets@[c] == saturating_product(c, dimension as int)
                    / divisor as int,
        decreases chunk_count + 1 - chunk,
    {
        let product = match chunk.checked_mul(dimension) {
            Some(value) => value,
            None => usize::MAX,
        };
        offsets.push(product / divisor);
        chunk = chunk + 1;
    }
    offsets
}

} // verus!
