//! Product quantization for DiskANN: a codebook that splits the dimensions
//! into balanced chunks with up to 256 centroids each, and one code byte
//! per chunk for every vector. Centroid coordinates are `f32` bit
//! patterns.

use crate::index::hnsw::same_ordinals;
use crate::index::ordinal_map::OrdinalMap;
use crate::index::quantization::{f32_pattern_finite, QuantizedVector};
use vstd::prelude::*;

verus! {

/// The most centroids a chunk holds (one code byte).
pub const MAX_PQ_CENTROIDS: usize = 256;

/// The first dimension of chunk `chunk` when `dimension` coordinates are
/// split into `chunk_count` balanced chunks: `chunk * dimension`
/// (saturating) divided by `chunk_count` (at least one).
pub open spec fn balanced_offset(chunk: int, dimension: int, chunk_count: int) -> int {
    let product = if chunk * dimension <= usize::MAX {
        chunk * dimension
    } else {
        usize::MAX as int
    };
    product / if chunk_count >= 1 {
        chunk_count
    } else {
        1
    }
}

/// The chunk boundaries and centroids of a product quantizer.
pub struct ProductCodebook {
    pub dimension: usize,
    /// `chunk_count + 1` boundaries; chunk `c` covers dimensions
    /// `chunk_offsets[c]..chunk_offsets[c + 1]`.
    pub chunk_offsets: Vec<usize>,
    /// For each chunk, its centroids, each as `f32` bit patterns.
    pub centroids: Vec<Vec<Vec<u32>>>,
}

/// A codebook and the code of every vector.
pub struct ProductQuantizer {
    pub codebook: ProductCodebook,
    pub codes: OrdinalMap<Vec<u8>>,
}

/// Every centroid of `chunk` is non-empty, finite and `width` long.
pub open spec fn chunk_fits(chunk: Seq<Vec<u32>>, width: int) -> bool {
    forall|j: int|
        0 <= j < chunk.len() ==> (#[trigger] chunk[j])@.len() > 0 && chunk[j]@.len() == width && forall|x: int|
            0 <= x < chunk[j]@.len() ==> f32_pattern_finite(#[trigger] chunk[j]@[x])
}

impl ProductCodebook {
    /// Whether the codebook is the shape training produces for `dimension`
    /// coordinates in `chunk_count` chunks over `vector_count` vectors:
    /// the balanced boundaries, one centroid list per chunk holding
    /// `min(vector_count, 256)` centroids, each finite, non-empty and as
    /// wide as its chunk.
    pub open spec fn spec_validates(&self, dimension: usize, chunk_count: usize, vector_count: usize) -> bool {
        let centroid_count = if vector_count <= MAX_PQ_CENTROIDS {
            vector_count as int
        } else {
            MAX_PQ_CENTROIDS as int
        };
        let offsets = self.chunk_offsets@;
        let centroids = self.centroids@;
        &&& self.dimension == dimension
        &&& offsets.len() == chunk_count + 1
        &&& forall|i: int|
            0 <= i < offsets.len() ==> #[trigger] offsets[i] == balanced_offset(i, dimension as int, chunk_count as int)
        &&& centroids.len() == chunk_count
        &&& forall|c: int|
            0 <= c < centroids.len() ==> (#[trigger] centroids[c])@.len() == centroid_count
                && offsets[c] <= offsets[c + 1] && chunk_fits(centroids[c]@, offsets[c + 1] - offsets[c])
    }

    /// Whether the codebook fits (see `spec_validates`).
    pub fn validates(&self, dimension: usize, chunk_count: usize, vector_count: usize) -> (r: bool)
        ensures
            r == self.spec_validates(dimension, chunk_count, vector_count),
    {
        let centroid_count = if vector_count <= MAX_PQ_CENTROIDS {
            vector_count
        } else {
            MAX_PQ_CENTROIDS
        };
        if self.dimension != dimension || self.chunk_offsets.len() == 0 || self.chunk_offsets.len() - 1
            != chunk_count {
            return false;
        }
        let divisor = if chunk_count >= 1 {
            chunk_count
        } else {
            1
        };
        let mut i: usize = 0;
        while i < self.chunk_offsets.len()
            invariant
                i <= self.chunk_offsets@.len(),
                self.chunk_offsets@.len() == chunk_count + 1,
                divisor == if chunk_count >= 1 {
                    chunk_count as int
                } else {
                    1
                },
                forall|k: int|
                    0 <= k < i ==> #[trigger] self.chunk_offsets@[k] == balanced_offset(
                        k,
                        dimension as int,
                        chunk_count as int,
                    ),
            decreases self.chunk_offsets@.len() - i,
        {
            let product = match i.checked_mul(dimension) {
                Some(p) => p,
                None => usize::MAX,
            };
            if self.chunk_offsets[i] != product / divisor {
                return false;
            }
            i = i + 1;
        }
        if self.centroids.len() != chunk_count {
            return false;
        }
        let mut c: usize = 0;
        while c < self.centroids.len()
            invariant
                c <= self.centroids@.len(),
                self.dimension == dimension,
                self.centroids@.len() == chunk_count,
                self.chunk_offsets@.len() == chunk_count + 1,
                centroid_count == if vector_count <= MAX_PQ_CENTROIDS {
                    vector_count as int
                } else {
                    MAX_PQ_CENTROIDS as int
                },
                forall|k: int|
                    0 <= k < self.chunk_offsets@.len() ==> #[trigger] self.chunk_offsets@[k] == balanced_offset(
                        k,
                        dimension as int,
                        chunk_count as int,
                    ),
                forall|k: int|
                    0 <= k < c ==> (#[trigger] self.centroids@[k])@.len() == centroid_count
                        && self.chunk_offsets@[k] <= self.chunk_offsets@[k + 1] && chunk_fits(
                        self.centroids@[k]@,
                        self.chunk_offsets@[k + 1] - self.chunk_offsets@[k],
                    ),
            decreases self.centroids@.len() - c,
        {
            let low = self.chunk_offsets[c];
            let high = self.chunk_offsets[c + 1];
            if self.centroids[c].len() != centroid_count || high < low || !centroids_fit(
                &self.centroids[c],
                high - low,
            ) {
                proof {
                    assert(!(self.centroids@[c as int]@.len() == centroid_count && self.chunk_offsets@[c as int]
                        <= self.chunk_offsets@[c + 1] && chunk_fits(
                        self.centroids@[c as int]@,
                        self.chunk_offsets@[c + 1] - self.chunk_offsets@[c as int],
                    )));
                }
                return false;
            }
            assert(self.centroids@[c as int]@.len() == centroid_count && self.chunk_offsets@[c as int]
                <= self.chunk_offsets@[c + 1] && chunk_fits(
                self.centroids@[c as int]@,
                self.chunk_offsets@[c + 1] - self.chunk_offsets@[c as int],
            ));
            c = c + 1;
        }
        proof {
            let offsets = self.chunk_offsets@;
            let centroids = self.centroids@;
            assert forall|k: int|
                0 <= k < centroids.len() implies (#[trigger] centroids[k])@.len() == centroid_count
                    && offsets[k] <= offsets[k + 1] && chunk_fits(centroids[k]@, offsets[k + 1] - offsets[k]) by {}
            assert(self.spec_validates(dimension, chunk_count, vector_count));
        }
        true
    }
}

/// Whether every coordinate of `centroid` is finite.
fn all_finite(centroid: &Vec<u32>) -> (r: bool)
    ensures
        r == forall|x: int| 0 <= x < centroid@.len() ==> f32_pattern_finite(#[trigger] centroid@[x]),
{
    let mut x: usize = 0;
    while x < centroid.len()
        invariant
            x <= centroid@.len(),
            forall|y: int| 0 <= y < x ==> f32_pattern_finite(#[trigger] centroid@[y]),
        decreases centroid@.len() - x,
    {
        if centroid[x] % 0x8000_0000 >= 0x7f80_0000 {
            assert(!f32_pattern_finite(centroid@[x as int]));
            return false;
        }
        x = x + 1;
    }
    true
}

/// Whether every centroid of `chunk` is non-empty, finite and `width` long.
fn centroids_fit(chunk: &Vec<Vec<u32>>, width: usize) -> (r: bool)
    ensures
        r == chunk_fits(chunk@, width as int),
{
    let mut j: usize = 0;
    while j < chunk.len()
        invariant
            j <= chunk@.len(),
            forall|k: int|
                0 <= k < j ==> (#[trigger] chunk@[k])@.len() > 0 && chunk@[k]@.len() == width && forall|x: int|
                    0 <= x < chunk@[k]@.len() ==> f32_pattern_finite(#[trigger] chunk@[k]@[x]),
        decreases chunk@.len() - j,
    {
        if chunk[j].len() == 0 || chunk[j].len() != width || !all_finite(&chunk[j]) {
            assert(!((chunk@[j as int])@.len() > 0 && chunk@[j as int]@.len() == width && forall|x: int|
                0 <= x < chunk@[j as int]@.len() ==> f32_pattern_finite(#[trigger] chunk@[j as int]@[x])));
            return false;
        }
        j = j + 1;
    }
    true
}

/// Whether two codes are the same bytes.
fn same_code(left: &Vec<u8>, right: &Vec<u8>) -> (r: bool)
    ensures
        r == (left@ == right@),
{
    if left.len() != right.len() {
        return false;
    }
    let mut i: usize = 0;
    while i < left.len()
        invariant
            i <= left@.len(),
            left@.len() == right@.len(),
            forall|k: int| 0 <= k < i ==> left@[k] == right@[k],
        decreases left@.len() - i,
    {
        if left[i] != right[i] {
            return false;
        }
        i = i + 1;
    }
    assert(left@ =~= right@);
    true
}

impl ProductQuantizer {
    /// Whether the quantizer is the one training over `vectors` produces:
    /// a fitting codebook for `chunk_count` chunks, a consistent code map
    /// over exactly the vector ordinals, and for every vector the code
    /// `recoded` gives it. `recoded` is what encoding each decoded vector
    /// under this codebook yields (the nearest centroid of each chunk, in
    /// floating point), with no entry where encoding fails.
    pub open spec fn spec_validates(
        &self,
        vectors: OrdinalMap<QuantizedVector>,
        dimension: usize,
        chunk_count: usize,
        recoded: OrdinalMap<Vec<u8>>,
    ) -> bool {
        &&& self.codebook.spec_validates(dimension, chunk_count, vectors.recorded_len() as usize)
        &&& self.codes.slots().len() <= vectors.slots().len()
        &&& self.codes.well_formed()
        &&& self.codes@.dom() == vectors@.dom()
        &&& forall|ordinal: u64|
            #[trigger] vectors@.contains_key(ordinal) ==> recoded@.contains_key(ordinal) && self.codes@[ordinal]@
                == recoded@[ordinal]@
    }

    /// Whether the quantizer fits (see `spec_validates`).
    pub fn validates(
        &self,
        vectors: &OrdinalMap<QuantizedVector>,
        dimension: usize,
        chunk_count: usize,
        recoded: &OrdinalMap<Vec<u8>>,
    ) -> (r: bool)
        ensures
            r == self.spec_validates(*vectors, dimension, chunk_count, *recoded),
    {
        if !self.codebook.validates(dimension, chunk_count, vectors.len()) || !self.codes.validates(
            vectors.slot_count(),
        ) || !same_ordinals(&self.codes, vectors) {
            return false;
        }
        let keys = vectors.keys();
        let mut k: usize = 0;
        while k < keys.len()
            invariant
                k <= keys@.len(),
                forall|o: u64| #[trigger] keys@.contains(o) <==> vectors@.contains_key(o),
                self.codes@.dom() == vectors@.dom(),
                forall|i: int|
                    0 <= i < k ==> recoded@.contains_key(#[trigger] keys@[i]) && self.codes@[keys@[i]]@
                        == recoded@[keys@[i]]@,
            decreases keys@.len() - k,
        {
            let ordinal = keys[k];
            assert(keys@.contains(ordinal));
            let stored = self.codes.get(ordinal);
            let expected = recoded.get(ordinal);
            match (stored, expected) {
                (Some(stored), Some(expected)) => {
                    if !same_code(stored, expected) {
                        return false;
                    }
                },
                _ => {
                    return false;
                },
            }
            k = k + 1;
        }
        proof {
            assert forall|o: u64| #[trigger] vectors@.contains_key(o) implies recoded@.contains_key(o)
                && self.codes@[o]@ == recoded@[o]@ by {
                assert(keys@.contains(o));
                let i = choose|i: int| 0 <= i < keys@.len() && keys@[i] == o;
                assert(recoded@.contains_key(keys@[i]));
            }
        }
        true
    }
}

} // verus!
