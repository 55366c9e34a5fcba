//! The sidecar file of the graph fields of a collection.
//!
//! A sidecar is a fixed 64-byte header (magic, format version, sector size,
//! field count, metadata length, data offset, file length, source revision,
//! a CRC-32 of everything after the header, and zero padding), then the
//! length-prefixed metadata (source identity, schema digest and one entry
//! per field), zero padding to a sector boundary, and each field's node
//! records: small records packed into sectors without crossing one, large
//! ones each starting on a sector boundary.

use crate::error::{Error, ErrorCode, Result};
use super::codec::{
    align_up, law_push_then_read_u32, law_push_then_read_u64, spec_read_u32, spec_read_u64, encoded_bytes_len, push_bytes, push_u32, push_u64, usize_to_u32,
};
use vstd::slice::*;
use super::node::{
    encode_record, lemma_slots_len, record_offset, lemma_words_len, node_record, padded_slots, words_bytes,
    RecordShape,
};
use vstd::bytes::*;
use super::layout::{field_storage, spec_field_storage};
use super::node::{raw_record_bytes, record_bytes_for, DiskNode};
use vstd::prelude::*;

verus! {

/// The sidecar format version.
pub const FORMAT_VERSION: u32 = 2;

/// Bytes of the fixed header.
pub const FIXED_HEADER_BYTES: usize = 64;

/// Where the header keeps the checksum.
pub const CHECKSUM_OFFSET: usize = 48;

/// Bytes of one field's fixed metadata.
pub const FIELD_METADATA_BYTES: usize = 80;

/// The ordinal written for a field without an entry node.
pub const NONE_ORDINAL: u64 = 0xffff_ffff_ffff_ffff;

/// The largest sidecar the format allows.
pub const MAX_FILE_BYTES: u64 = 536_870_912;

/// A product-quantization codebook as the sidecar stores it.
pub struct Codebook {
    /// Code bytes per node.
    pub chunk_count: usize,
    /// Centroids per chunk.
    pub centroid_count: usize,
    /// Every centroid coordinate as an `f32` bit pattern, chunk by chunk.
    pub centroid_bits: Vec<u32>,
}

/// A graph field as the sidecar stores it.
pub struct GraphField {
    /// The field name's bytes.
    pub name: Vec<u8>,
    /// The index kind's code.
    pub index_type: u32,
    pub dimension: usize,
    pub max_degree: usize,
    pub list_size: usize,
    /// The pruning factor as an `f64` bit pattern.
    pub alpha_bits: u64,
    pub entry_ordinal: Option<u64>,
    pub codebook: Option<Codebook>,
    /// The ordinals of the graph's nodes, in order.
    pub graph_ordinals: Vec<u64>,
    /// Each stored node with its ordinal, in ordinal order.
    pub nodes: Vec<(u64, DiskNode)>,
}

/// Where one field's records go and how they are shaped.
#[derive(Debug, Clone, Copy, PartialEq, Eq, Structural)]
pub struct FieldPlan {
    pub record_bytes: usize,
    pub nodes_per_sector: usize,
    pub sectors_per_node: usize,
    pub data_offset: usize,
    pub data_bytes: usize,
}

/// The layout of a whole sidecar.
pub struct SidecarPlan {
    pub fields: Vec<FieldPlan>,
    pub metadata_bytes: usize,
    pub data_offset: usize,
    pub total_bytes: usize,
}

/// The code length of a field's quantized payload, if it is quantized.
pub open spec fn pq_chunks_of(field: GraphField) -> Option<usize> {
    match field.codebook {
        Some(codebook) => Some(codebook.chunk_count),
        None => None,
    }
}

/// The record length of a field, when it fits in `usize`.
pub open spec fn spec_record_len(field: GraphField) -> Option<int> {
    let raw = raw_record_bytes(field.dimension as int, field.max_degree as int, pq_chunks_of(field));
    if raw + 7 <= usize::MAX {
        Some(((raw + 7) / 8) * 8)
    } else {
        None
    }
}

/// A field's record length, records per sector, sectors per record and data
/// length, when they fit in `usize`.
pub open spec fn spec_field_sizes(field: GraphField) -> Option<(int, int, int, int)> {
    match spec_record_len(field) {
        Some(record_bytes) => match spec_field_storage(record_bytes, field.nodes@.len() as int) {
            Some((per_sector, sectors, bytes)) => Some((record_bytes, per_sector, sectors, bytes)),
            None => None,
        },
        None => None,
    }
}

/// The number of codebook coordinates of a field.
pub open spec fn centroid_len(field: GraphField) -> int {
    match field.codebook {
        Some(codebook) => codebook.centroid_bits@.len() as int,
        None => 0,
    }
}

/// The metadata bytes of one field: its name, fixed metadata and codebook.
pub open spec fn field_meta_len(field: GraphField) -> int {
    field.name@.len() + 4 + FIELD_METADATA_BYTES + 4 * centroid_len(field)
}

/// The data bytes of the first `n` fields.
pub open spec fn data_sum(fields: Seq<GraphField>, n: int) -> int
    decreases n,
{
    if n <= 0 {
        0
    } else {
        data_sum(fields, n - 1) + match spec_field_sizes(fields[n - 1]) {
            Some(sizes) => sizes.3,
            None => 0,
        }
    }
}

/// The metadata bytes of the first `n` fields.
pub open spec fn meta_sum(fields: Seq<GraphField>, n: int) -> int
    decreases n,
{
    if n <= 0 {
        0
    } else {
        meta_sum(fields, n - 1) + field_meta_len(fields[n - 1])
    }
}

/// The metadata length for `fields` with an identity and digest of the given
/// lengths.
pub open spec fn spec_metadata_len(fields: Seq<GraphField>, identity_len: int, digest_len: int) -> int {
    identity_len + 4 + digest_len + 4 + meta_sum(fields, fields.len() as int)
}

/// Where the field data starts: after the header and metadata, rounded up to
/// a sector.
pub open spec fn spec_data_offset(metadata_len: int) -> int {
    ((FIXED_HEADER_BYTES + metadata_len + 4095) / 4096) * 4096
}

/// Every quantity of the layout fits: each field's sizes, the metadata's
/// strings and length, the data offset and the file length, which is at
/// most `MAX_FILE_BYTES`.
pub open spec fn plan_fits(fields: Seq<GraphField>, identity_len: int, digest_len: int) -> bool {
    let metadata_len = spec_metadata_len(fields, identity_len, digest_len);
    &&& forall|i: int| 0 <= i < fields.len() ==> (#[trigger] spec_field_sizes(fields[i])) is Some
    &&& identity_len <= u32::MAX
    &&& digest_len <= u32::MAX
    &&& forall|i: int| 0 <= i < fields.len() ==> (#[trigger] fields[i].name@.len()) <= u32::MAX
    &&& metadata_len <= usize::MAX
    &&& FIXED_HEADER_BYTES + metadata_len + 4095 <= usize::MAX
    &&& spec_data_offset(metadata_len) + data_sum(fields, fields.len() as int) <= MAX_FILE_BYTES
}

/// `plan` is the layout of `fields`.
pub open spec fn plan_of(
    plan: SidecarPlan,
    fields: Seq<GraphField>,
    identity_len: int,
    digest_len: int,
) -> bool {
    let metadata_len = spec_metadata_len(fields, identity_len, digest_len);
    let data_offset = spec_data_offset(metadata_len);
    &&& plan.metadata_bytes == metadata_len
    &&& plan.data_offset == data_offset
    &&& plan.total_bytes == data_offset + data_sum(fields, fields.len() as int)
    &&& plan.fields@.len() == fields.len()
    &&& forall|i: int|
        0 <= i < fields.len() ==> (spec_field_sizes(fields[i]) matches Some(sizes) && {
            let p = #[trigger] plan.fields@[i];
            &&& p.record_bytes == sizes.0
            &&& p.nodes_per_sector == sizes.1
            &&& p.sectors_per_node == sizes.2
            &&& p.data_bytes == sizes.3
            &&& p.data_offset == data_offset + data_sum(fields, i)
        })
}

proof fn lemma_field_sizes_nonneg(field: GraphField)
    ensures
        spec_field_sizes(field) matches Some(sizes) ==> sizes.0 >= 16 && sizes.3 >= 0,
{
    let raw = raw_record_bytes(field.dimension as int, field.max_degree as int, pq_chunks_of(field));
    if let Some(rb) = spec_record_len(field) {
        assert(raw >= 16);
        assert(rb >= 16) by (nonlinear_arith)
            requires
                rb == ((raw + 7) / 8) * 8,
                raw >= 16,
        ;
        let n = field.nodes@.len() as int;
        if rb <= 4096 {
            let per_sector = 4096int / rb;
            assert(per_sector >= 1) by (nonlinear_arith)
                requires
                    per_sector == 4096int / rb,
                    16 <= rb <= 4096,
            ;
            let sectors = (n + per_sector - 1) / per_sector;
            assert(sectors >= 0) by (nonlinear_arith)
                requires
                    sectors == (n + per_sector - 1) / per_sector,
                    per_sector >= 1,
                    n >= 0,
            ;
        } else {
            let stride = ((rb + 4095) / 4096) * 4096;
            assert(stride >= 0) by (nonlinear_arith)
                requires
                    stride == ((rb + 4095) / 4096) * 4096,
                    rb >= 0,
            ;
            assert(n * stride >= 0) by (nonlinear_arith)
                requires
                    stride >= 0,
                    n >= 0,
            ;
        }
    }
}

proof fn lemma_sums_grow(fields: Seq<GraphField>, a: int, b: int)
    requires
        0 <= a <= b,
    ensures
        data_sum(fields, a) <= data_sum(fields, b),
        meta_sum(fields, a) <= meta_sum(fields, b),
        data_sum(fields, a) >= 0,
        meta_sum(fields, a) >= 0,
    decreases b,
{
    if b > a {
        lemma_sums_grow(fields, a, b - 1);
        lemma_field_sizes_nonneg(fields[b - 1]);
    } else if a > 0 {
        lemma_sums_grow(fields, a - 1, a - 1);
        lemma_field_sizes_nonneg(fields[a - 1]);
    }
}

/// The record length, records per sector, sectors per record and data
/// length of each field.
fn field_sizes(fields: &[GraphField]) -> (r: Result<Vec<(usize, usize, usize, usize)>>)
    ensures
        match r {
            Ok(sizes) => sizes@.len() == fields@.len() && forall|j: int|
                0 <= j < fields@.len() ==> spec_field_sizes(#[trigger] fields@[j]) == Some(
                    (sizes@[j].0 as int, sizes@[j].1 as int, sizes@[j].2 as int, sizes@[j].3 as int),
                ),
            Err(e) => e.code == ErrorCode::ResourceExhausted && exists|j: int|
                0 <= j < fields@.len() && (#[trigger] spec_field_sizes(fields@[j])) is None,
        },
{
    let mut sizes: Vec<(usize, usize, usize, usize)> = Vec::new();
    let mut i: usize = 0;
    while i < fields.len()
        invariant
            i <= fields@.len(),
            sizes@.len() == i,
            forall|j: int|
                0 <= j < i ==> spec_field_sizes(#[trigger] fields@[j]) == Some(
                    (sizes@[j].0 as int, sizes@[j].1 as int, sizes@[j].2 as int, sizes@[j].3 as int),
                ),
        decreases fields.len() - i,
    {
        let field = &fields[i];
        let pq_chunks = match &field.codebook {
            Some(codebook) => Some(codebook.chunk_count),
            None => None,
        };
        let record_bytes = match record_bytes_for(field.dimension, field.max_degree, pq_chunks) {
            Ok(n) => n,
            Err(e) => {
                proof {
                    assert(spec_field_sizes(fields@[i as int]) is None);
                }
                return Err(e);
            },
        };
        let (per_sector, sectors, bytes) = match field_storage(record_bytes, field.nodes.len()) {
            Ok(v) => v,
            Err(e) => {
                proof {
                    assert(spec_field_sizes(fields@[i as int]) is None);
                }
                return Err(e);
            },
        };
        sizes.push((record_bytes, per_sector, sectors, bytes));
        i = i + 1;
    }
    Ok(sizes)
}

/// The metadata length of `fields` with the given identity and digest.
fn metadata_len(fields: &[GraphField], identity: &[u8], digest: &[u8]) -> (r: Result<usize>)
    ensures
        ({
            let fits = identity@.len() <= u32::MAX && digest@.len() <= u32::MAX && (forall|i: int|
                0 <= i < fields@.len() ==> (#[trigger] fields@[i].name@.len()) <= u32::MAX)
                && spec_metadata_len(fields@, identity@.len() as int, digest@.len() as int)
                <= usize::MAX;
            match r {
                Ok(n) => fits && n == spec_metadata_len(
                    fields@,
                    identity@.len() as int,
                    digest@.len() as int,
                ),
                Err(e) => e.code == ErrorCode::ResourceExhausted && !fits,
            }
        }),
{
    let ghost fs = fields@;
    let ghost id_len = identity@.len() as int;
    let ghost dg_len = digest@.len() as int;
    proof {
        lemma_sums_grow(fs, 0, fs.len() as int);
    }
    let mut metadata_bytes = encoded_bytes_len(identity)?;
    let digest_bytes = encoded_bytes_len(digest)?;
    metadata_bytes = match metadata_bytes.checked_add(digest_bytes) {
        Some(total) => total,
        None => {
            return Err(Error::resource_exhausted("DiskANN metadata length overflow"));
        },
    };
    let mut k: usize = 0;
    while k < fields.len()
        invariant
            fs == fields@,
            id_len == identity@.len() as int,
            dg_len == digest@.len() as int,
            k <= fields@.len(),
            identity@.len() <= u32::MAX,
            digest@.len() <= u32::MAX,
            forall|j: int| 0 <= j < k ==> (#[trigger] fs[j].name@.len()) <= u32::MAX,
            metadata_bytes == id_len + 4 + dg_len + 4 + meta_sum(fs, k as int),
        decreases fields.len() - k,
    {
        let field = &fields[k];
        proof {
            lemma_sums_grow(fs, k + 1, fs.len() as int);
            assert(meta_sum(fs, k + 1) == meta_sum(fs, k as int) + field_meta_len(fs[k as int]));
            assert(spec_metadata_len(fs, id_len, dg_len) >= metadata_bytes + field_meta_len(
                fs[k as int],
            ));
        }
        let name = field.name.as_slice();
        let name_bytes = match encoded_bytes_len(name) {
            Ok(n) => n,
            Err(e) => {
                assert(name@ == fs[k as int].name@);
                assert(!(fs[k as int].name@.len() <= u32::MAX) || spec_metadata_len(
                    fs,
                    id_len,
                    dg_len,
                ) > usize::MAX);
                return Err(e);
            },
        };
        let centroids = match &field.codebook {
            Some(codebook) => codebook.centroid_bits.len(),
            None => 0,
        };
        proof {
            assert(centroids == centroid_len(fs[k as int]));
            assert(name_bytes == fs[k as int].name@.len() + 4);
        }
        let codebook_bytes = match centroids.checked_mul(4) {
            Some(n) => n,
            None => {
                assert(4 * centroid_len(fs[k as int]) > usize::MAX);
                assert(field_meta_len(fs[k as int]) > usize::MAX);
                assert(spec_metadata_len(fs, id_len, dg_len) > usize::MAX);
                return Err(Error::resource_exhausted("DiskANN PQ codebook length overflow"));
            },
        };
        let next = match metadata_bytes.checked_add(name_bytes) {
            Some(a) => match a.checked_add(FIELD_METADATA_BYTES) {
                Some(b) => b.checked_add(codebook_bytes),
                None => None,
            },
            None => None,
        };
        metadata_bytes = match next {
            Some(n) => n,
            None => {
                assert(spec_metadata_len(fs, id_len, dg_len) > usize::MAX);
                return Err(Error::resource_exhausted("DiskANN field metadata length overflow"));
            },
        };
        k = k + 1;
    }
    Ok(metadata_bytes)
}

/// Lays out the sidecar of `fields` for a source identity and schema digest
/// of the given bytes. Fails with a resource error when any quantity
/// overflows or the file would exceed `MAX_FILE_BYTES`.
pub fn prepare(fields: &[GraphField], identity: &[u8], digest: &[u8]) -> (r: Result<SidecarPlan>)
    ensures
        match r {
            Ok(plan) => plan_fits(fields@, identity@.len() as int, digest@.len() as int) && plan_of(
                plan,
                fields@,
                identity@.len() as int,
                digest@.len() as int,
            ),
            Err(e) => e.code == ErrorCode::ResourceExhausted && !plan_fits(
                fields@,
                identity@.len() as int,
                digest@.len() as int,
            ),
        },
{
    let ghost fs = fields@;
    let ghost id_len = identity@.len() as int;
    let ghost dg_len = digest@.len() as int;
    let sizes = field_sizes(fields)?;
    let metadata_bytes = metadata_len(fields, identity, digest)?;
    let header_end = match FIXED_HEADER_BYTES.checked_add(metadata_bytes) {
        Some(n) => n,
        None => {
            return Err(Error::resource_exhausted("DiskANN header length overflow"));
        },
    };
    let data_offset = match align_up(header_end, 4096) {
        Some(n) => n,
        None => {
            return Err(Error::resource_exhausted("DiskANN header alignment overflow"));
        },
    };
    proof {
        lemma_sums_grow(fs, 0, fs.len() as int);
    }
    let mut plans: Vec<FieldPlan> = Vec::new();
    let mut total_bytes = data_offset;
    let mut f: usize = 0;
    while f < fields.len()
        invariant
            fs == fields@,
            id_len == identity@.len() as int,
            dg_len == digest@.len() as int,
            metadata_bytes == spec_metadata_len(fs, id_len, dg_len),
            sizes@.len() == fs.len(),
            forall|j: int|
                0 <= j < fs.len() ==> spec_field_sizes(#[trigger] fs[j]) == Some(
                    (sizes@[j].0 as int, sizes@[j].1 as int, sizes@[j].2 as int, sizes@[j].3 as int),
                ),
            f <= fs.len(),
            plans@.len() == f,
            data_offset == spec_data_offset(metadata_bytes as int),
            total_bytes == data_offset + data_sum(fs, f as int),
            forall|j: int|
                0 <= j < f ==> {
                    let p = #[trigger] plans@[j];
                    &&& p.record_bytes == sizes@[j].0
                    &&& p.nodes_per_sector == sizes@[j].1
                    &&& p.sectors_per_node == sizes@[j].2
                    &&& p.data_bytes == sizes@[j].3
                    &&& p.data_offset == data_offset + data_sum(fs, j)
                },
        decreases fields.len() - f,
    {
        let (record_bytes, per_sector, sectors, bytes) = sizes[f];
        proof {
            assert(spec_field_sizes(fs[f as int]) == Some(
                (record_bytes as int, per_sector as int, sectors as int, bytes as int),
            ));
            lemma_sums_grow(fs, f + 1, fs.len() as int);
            assert(data_sum(fs, f + 1) == data_sum(fs, f as int) + bytes);
        }
        plans.push(
            FieldPlan {
                record_bytes,
                nodes_per_sector: per_sector,
                sectors_per_node: sectors,
                data_offset: total_bytes,
                data_bytes: bytes,
            },
        );
        total_bytes = match total_bytes.checked_add(bytes) {
            Some(n) => n,
            None => {
                assert(data_offset + data_sum(fs, fs.len() as int) > usize::MAX);
                assert(metadata_bytes == spec_metadata_len(fs, id_len, dg_len));
                assert(spec_data_offset(spec_metadata_len(fs, id_len, dg_len)) + data_sum(
                    fs,
                    fs.len() as int,
                ) > MAX_FILE_BYTES);
                return Err(Error::resource_exhausted("DiskANN file length overflow"));
            },
        };
        f = f + 1;
    }
    if total_bytes as u128 > MAX_FILE_BYTES as u128 {
        return Err(Error::resource_exhausted("DiskANN sidecar exceeds the 536870912-byte storage limit"));
    }
    let plan = SidecarPlan { fields: plans, metadata_bytes, data_offset, total_bytes };
    proof {
        assert forall|i: int| 0 <= i < fs.len() implies (spec_field_sizes(fs[i]) matches Some(sizes_i) && {
            let p = #[trigger] plan.fields@[i];
            &&& p.record_bytes == sizes_i.0
            &&& p.nodes_per_sector == sizes_i.1
            &&& p.sectors_per_node == sizes_i.2
            &&& p.data_bytes == sizes_i.3
            &&& p.data_offset == data_offset + data_sum(fs, i)
        }) by {
            assert(spec_field_sizes(fs[i]) == Some(
                (sizes@[i].0 as int, sizes@[i].1 as int, sizes@[i].2 as int, sizes@[i].3 as int),
            ));
        }
    }
    Ok(plan)
}

/// A length-prefixed byte string.
pub open spec fn prefixed(bytes: Seq<u8>) -> Seq<u8> {
    spec_u32_to_le_bytes(bytes.len() as u32) + bytes
}

/// The codebook coordinates of a field, none for an unquantized field.
pub open spec fn centroid_words(field: GraphField) -> Seq<u32> {
    match field.codebook {
        Some(codebook) => codebook.centroid_bits@,
        None => Seq::empty(),
    }
}

/// Every count a field's metadata stores as a `u32` fits one.
pub open spec fn entry_fits(field: GraphField, plan: FieldPlan) -> bool {
    &&& field.dimension <= u32::MAX
    &&& field.max_degree <= u32::MAX
    &&& field.list_size <= u32::MAX
    &&& plan.record_bytes <= u32::MAX
    &&& plan.nodes_per_sector <= u32::MAX
    &&& plan.sectors_per_node <= u32::MAX
    &&& match field.codebook {
        Some(codebook) => codebook.chunk_count <= u32::MAX && codebook.centroid_count <= u32::MAX,
        None => true,
    }
}

/// The counts of a field's metadata: node count, dimension, maximum
/// degree, search list size, record length, records per sector and sectors
/// per record.
pub open spec fn entry_counts(field: GraphField, plan: FieldPlan) -> Seq<u8> {
    spec_u64_to_le_bytes(field.nodes@.len() as u64) + spec_u32_to_le_bytes(field.dimension as u32)
        + spec_u32_to_le_bytes(field.max_degree as u32) + spec_u32_to_le_bytes(
        field.list_size as u32,
    ) + spec_u32_to_le_bytes(plan.record_bytes as u32) + spec_u32_to_le_bytes(
        plan.nodes_per_sector as u32,
    ) + spec_u32_to_le_bytes(plan.sectors_per_node as u32)
}

/// The graph and placement part of a field's metadata: pruning factor,
/// entry node, data offset, data length and index kind.
pub open spec fn entry_placement(field: GraphField, plan: FieldPlan) -> Seq<u8> {
    let entry = match field.entry_ordinal {
        Some(ordinal) => ordinal,
        None => NONE_ORDINAL,
    };
    spec_u64_to_le_bytes(field.alpha_bits) + spec_u64_to_le_bytes(entry) + spec_u64_to_le_bytes(
        plan.data_offset as u64,
    ) + spec_u64_to_le_bytes(plan.data_bytes as u64) + spec_u32_to_le_bytes(field.index_type)
}

/// The quantization part of a field's metadata: whether it is quantized,
/// its chunk and centroid counts, and its codebook.
pub open spec fn entry_codebook(field: GraphField) -> Seq<u8> {
    let (pq_flag, chunks, centroids) = match field.codebook {
        Some(codebook) => (1u32, codebook.chunk_count as u32, codebook.centroid_count as u32),
        None => (0u32, 0u32, 0u32),
    };
    spec_u32_to_le_bytes(pq_flag) + spec_u32_to_le_bytes(chunks) + spec_u32_to_le_bytes(centroids)
        + words_bytes(centroid_words(field))
}

/// The fixed metadata of a field, then its codebook.
pub open spec fn field_entry(field: GraphField, plan: FieldPlan) -> Seq<u8> {
    entry_counts(field, plan) + entry_placement(field, plan) + entry_codebook(field)
}

/// The metadata entries of the first `n` fields.
pub open spec fn field_entries(fields: Seq<GraphField>, plans: Seq<FieldPlan>, n: int) -> Seq<u8>
    decreases n,
{
    if n <= 0 {
        Seq::empty()
    } else {
        field_entries(fields, plans, n - 1) + prefixed(fields[n - 1].name@) + field_entry(
            fields[n - 1],
            plans[n - 1],
        )
    }
}

/// The sidecar metadata: the source identity, the schema digest, then each
/// field's name and entry.
pub open spec fn metadata_image(
    fields: Seq<GraphField>,
    plans: Seq<FieldPlan>,
    identity: Seq<u8>,
    digest: Seq<u8>,
) -> Seq<u8> {
    prefixed(identity) + prefixed(digest) + field_entries(fields, plans, fields.len() as int)
}

/// Appends the little-endian bytes of `words`.
fn push_words(output: &mut Vec<u8>, words: &Vec<u32>)
    ensures
        final(output)@ == old(output)@ + words_bytes(words@),
{
    let ghost start = output@;
    let mut i: usize = 0;
    proof {
        assert(words@.take(0) =~= Seq::<u32>::empty());
        assert(start + words_bytes(Seq::<u32>::empty()) =~= start);
    }
    while i < words.len()
        invariant
            i <= words@.len(),
            output@ == start + words_bytes(words@.take(i as int)),
        decreases words.len() - i,
    {
        push_u32(output, words[i]);
        proof {
            assert(words@.take(i + 1).drop_last() =~= words@.take(i as int));
            assert(output@ =~= start + words_bytes(words@.take(i + 1)));
        }
        i = i + 1;
    }
    proof {
        assert(words@.take(words@.len() as int) =~= words@);
    }
}

fn push_entry_counts(output: &mut Vec<u8>, field: &GraphField, plan: &FieldPlan)
    requires
        entry_fits(*field, *plan),
    ensures
        final(output)@ == old(output)@ + entry_counts(*field, *plan),
{
    let ghost start = output@;
    push_u64(output, field.nodes.len() as u64);
    push_u32(output, field.dimension as u32);
    push_u32(output, field.max_degree as u32);
    push_u32(output, field.list_size as u32);
    push_u32(output, plan.record_bytes as u32);
    push_u32(output, plan.nodes_per_sector as u32);
    push_u32(output, plan.sectors_per_node as u32);
    proof {
        assert(output@ =~= start + entry_counts(*field, *plan));
    }
}

fn push_entry_placement(output: &mut Vec<u8>, field: &GraphField, plan: &FieldPlan)
    ensures
        final(output)@ == old(output)@ + entry_placement(*field, *plan),
{
    let ghost start = output@;
    push_u64(output, field.alpha_bits);
    push_u64(
        output,
        match field.entry_ordinal {
            Some(ordinal) => ordinal,
            None => NONE_ORDINAL,
        },
    );
    push_u64(output, plan.data_offset as u64);
    push_u64(output, plan.data_bytes as u64);
    push_u32(output, field.index_type);
    proof {
        assert(output@ =~= start + entry_placement(*field, *plan));
    }
}

fn push_entry_codebook(output: &mut Vec<u8>, field: &GraphField)
    requires
        match field.codebook {
            Some(codebook) => codebook.chunk_count <= u32::MAX && codebook.centroid_count
                <= u32::MAX,
            None => true,
        },
    ensures
        final(output)@ == old(output)@ + entry_codebook(*field),
{
    let ghost start = output@;
    match &field.codebook {
        Some(codebook) => {
            push_u32(output, 1);
            push_u32(output, codebook.chunk_count as u32);
            push_u32(output, codebook.centroid_count as u32);
            let ghost mid = output@;
            push_words(output, &codebook.centroid_bits);
            proof {
                assert(output@ =~= start + entry_codebook(*field));
            }
        },
        None => {
            push_u32(output, 0);
            push_u32(output, 0);
            push_u32(output, 0);
            proof {
                assert(output@ =~= start + entry_codebook(*field));
            }
        },
    }
}

/// Appends the metadata entry of `field` laid out by `plan`.
fn push_field_entry(output: &mut Vec<u8>, field: &GraphField, plan: &FieldPlan) -> (r: Result<()>)
    ensures
        r is Ok <==> entry_fits(*field, *plan),
        r is Ok ==> final(output)@ == old(output)@ + field_entry(*field, *plan),
        r matches Err(e) ==> e.code == ErrorCode::ResourceExhausted,
{
    let fits = field.dimension as u128 <= u32::MAX as u128 && field.max_degree as u128
        <= u32::MAX as u128 && field.list_size as u128 <= u32::MAX as u128 && plan.record_bytes as u128
        <= u32::MAX as u128 && plan.nodes_per_sector as u128 <= u32::MAX as u128
        && plan.sectors_per_node as u128 <= u32::MAX as u128 && match &field.codebook {
        Some(codebook) => codebook.chunk_count as u128 <= u32::MAX as u128 && codebook.centroid_count
            as u128 <= u32::MAX as u128,
        None => true,
    };
    if !fits {
        return Err(Error::resource_exhausted("DiskANN field metadata value exceeds u32"));
    }
    let ghost start = output@;
    push_entry_counts(output, field, plan);
    push_entry_placement(output, field, plan);
    push_entry_codebook(output, field);
    proof {
        assert(output@ =~= start + field_entry(*field, *plan));
    }
    Ok(())
}

/// The sidecar metadata of `fields` laid out by `plans`. Fails with a
/// resource error when a string is longer than `u32::MAX` bytes or a count
/// does not fit its `u32` slot.
pub fn encode_metadata(
    fields: &[GraphField],
    plans: &Vec<FieldPlan>,
    identity: &[u8],
    digest: &[u8],
) -> (r: Result<Vec<u8>>)
    requires
        plans@.len() == fields@.len(),
    ensures
        ({
            let fits = identity@.len() <= u32::MAX && digest@.len() <= u32::MAX && forall|i: int|
                0 <= i < fields@.len() ==> (#[trigger] fields@[i].name@.len()) <= u32::MAX
                    && entry_fits(fields@[i], plans@[i]);
            match r {
                Ok(metadata) => fits && metadata@ == metadata_image(
                    fields@,
                    plans@,
                    identity@,
                    digest@,
                ),
                Err(e) => e.code == ErrorCode::ResourceExhausted && !fits,
            }
        }),
{
    let mut metadata: Vec<u8> = Vec::new();
    push_bytes(&mut metadata, identity)?;
    push_bytes(&mut metadata, digest)?;
    let ghost head = metadata@;
    proof {
        assert(head =~= prefixed(identity@) + prefixed(digest@));
        assert(head + field_entries(fields@, plans@, 0) =~= head);
    }
    let mut i: usize = 0;
    while i < fields.len()
        invariant
            plans@.len() == fields@.len(),
            i <= fields@.len(),
            head == prefixed(identity@) + prefixed(digest@),
            forall|j: int|
                0 <= j < i ==> (#[trigger] fields@[j].name@.len()) <= u32::MAX && entry_fits(
                    fields@[j],
                    plans@[j],
                ),
            metadata@ == head + field_entries(fields@, plans@, i as int),
        decreases fields.len() - i,
    {
        let field = &fields[i];
        let name = field.name.as_slice();
        match push_bytes(&mut metadata, name) {
            Ok(()) => {},
            Err(e) => {
                return Err(e);
            },
        }
        match push_field_entry(&mut metadata, field, &plans[i]) {
            Ok(()) => {},
            Err(e) => {
                return Err(e);
            },
        }
        proof {
            assert(metadata@ =~= head + field_entries(fields@, plans@, i + 1));
        }
        i = i + 1;
    }
    proof {
        assert(metadata@ =~= metadata_image(fields@, plans@, identity@, digest@));
    }
    Ok(metadata)
}

/// `n` zero bytes.
pub open spec fn zeros(n: int) -> Seq<u8> {
    Seq::new(n as nat, |_i: int| 0u8)
}

/// The byte strings of `parts`, one after another.
pub open spec fn concat(parts: Seq<Seq<u8>>) -> Seq<u8>
    decreases parts.len(),
{
    if parts.len() == 0 {
        Seq::empty()
    } else {
        concat(parts.drop_last()) + parts.last()
    }
}

/// Records packed `per_sector` to a sector, each sector zero-padded to its
/// full length.
pub open spec fn packed(records: Seq<Seq<u8>>, per_sector: int) -> Seq<u8>
    decreases records.len(),
{
    if records.len() == 0 {
        Seq::empty()
    } else {
        let k = if per_sector < 1 {
            1
        } else if (records.len() as int) < per_sector {
            records.len() as int
        } else {
            per_sector
        };
        let chunk = concat(records.take(k));
        chunk + zeros(4096 - chunk.len()) + packed(records.skip(k), per_sector)
    }
}

/// Records each zero-padded to `stride` bytes.
pub open spec fn strided(records: Seq<Seq<u8>>, stride: int) -> Seq<u8>
    decreases records.len(),
{
    if records.len() == 0 {
        Seq::empty()
    } else {
        strided(records.drop_last(), stride) + records.last() + zeros(stride - records.last().len())
    }
}

/// The record shape of `field` laid out by `plan`.
pub open spec fn shape_of(field: GraphField, plan: FieldPlan) -> RecordShape {
    RecordShape {
        pq_chunks: pq_chunks_of(field),
        dimension: field.dimension,
        max_degree: field.max_degree,
        record_bytes: plan.record_bytes,
    }
}

/// The canonical records of a field's nodes, in order.
pub open spec fn field_records(field: GraphField, plan: FieldPlan) -> Seq<Seq<u8>> {
    Seq::new(
        field.nodes@.len(),
        |i: int|
            node_record(
                shape_of(field, plan),
                field.nodes@[i].0,
                field.nodes@[i].1.vector_bits@,
                field.nodes@[i].1.code@,
                field.nodes@[i].1.neighbors@,
            ),
    )
}

/// A field's data: its records packed into sectors, or one run of sectors
/// per record.
pub open spec fn field_data(field: GraphField, plan: FieldPlan) -> Seq<u8> {
    if plan.nodes_per_sector > 0 {
        packed(field_records(field, plan), plan.nodes_per_sector as int)
    } else {
        strided(field_records(field, plan), plan.sectors_per_node * 4096)
    }
}

/// The graph holds exactly the stored nodes, and each node fits its record:
/// no more neighbours than the maximum degree and a payload of the field's
/// length.
pub open spec fn nodes_encodable(field: GraphField) -> bool {
    &&& field.graph_ordinals@ == field.nodes@.map_values(|entry: (u64, DiskNode)| entry.0)
    &&& forall|i: int|
        0 <= i < field.nodes@.len() ==> {
            let node = #[trigger] field.nodes@[i].1;
            &&& node.neighbors@.len() <= field.max_degree
            &&& match field.codebook {
                Some(codebook) => node.code@.len() == codebook.chunk_count,
                None => node.vector_bits@.len() == field.dimension,
            }
        }
}

/// Appends `zero` bytes until `output` is `length` long.
fn pad_to(output: &mut Vec<u8>, length: usize)
    requires
        old(output)@.len() <= length,
    ensures
        final(output)@ == old(output)@ + zeros(length - old(output)@.len()),
{
    let ghost start = output@;
    while output.len() < length
        invariant
            start.len() <= output@.len() <= length,
            output@ == start + zeros(output@.len() - start.len()),
        decreases length - output.len(),
    {
        output.push(0);
        proof {
            assert(output@ =~= start + zeros(output@.len() - start.len()));
        }
    }
}

/// Whether the graph's ordinals are the stored nodes' ordinals.
fn same_ordinals(field: &GraphField) -> (r: bool)
    ensures
        r == (field.graph_ordinals@ == field.nodes@.map_values(|entry: (u64, DiskNode)| entry.0)),
{
    let ghost keys = field.nodes@.map_values(|entry: (u64, DiskNode)| entry.0);
    if field.graph_ordinals.len() != field.nodes.len() {
        return false;
    }
    let mut i: usize = 0;
    while i < field.nodes.len()
        invariant
            keys == field.nodes@.map_values(|entry: (u64, DiskNode)| entry.0),
            field.graph_ordinals@.len() == field.nodes@.len(),
            i <= field.nodes@.len(),
            forall|j: int| 0 <= j < i ==> field.graph_ordinals@[j] == keys[j],
        decreases field.nodes.len() - i,
    {
        if field.graph_ordinals[i] != field.nodes[i].0 {
            return false;
        }
        i = i + 1;
    }
    proof {
        assert(field.graph_ordinals@ =~= keys);
    }
    true
}

/// A canonical record whose payload has the field's length fills the record
/// exactly.
proof fn lemma_node_record_len(
    shape: RecordShape,
    ordinal: u64,
    vector_bits: Seq<u32>,
    code: Seq<u8>,
    neighbors: Seq<u64>,
)
    requires
        shape.fits(),
        neighbors.len() <= shape.max_degree,
        match shape.pq_chunks {
            Some(chunks) => code.len() == chunks,
            None => vector_bits.len() == shape.dimension,
        },
    ensures
        node_record(shape, ordinal, vector_bits, code, neighbors).len() == shape.record_bytes,
{
    lemma_auto_spec_u32_to_from_le_bytes();
    lemma_auto_spec_u64_to_from_le_bytes();
    lemma_words_len(vector_bits);
    lemma_slots_len(padded_slots(neighbors, shape.max_degree as nat));
}

/// Parts that are each `size` bytes long concatenate to `count * size`.
proof fn lemma_concat_len(parts: Seq<Seq<u8>>, size: int)
    requires
        size >= 0,
        forall|i: int| 0 <= i < parts.len() ==> (#[trigger] parts[i]).len() == size,
    ensures
        concat(parts).len() == parts.len() * size,
    decreases parts.len(),
{
    if parts.len() > 0 {
        lemma_concat_len(parts.drop_last(), size);
        assert(parts.len() * size == (parts.len() - 1) * size + size) by (nonlinear_arith);
    }
}

/// A multiple `q * d` below `n` leaves room for one more `d`-block among the
/// `ceil(n / d)` blocks.
proof fn lemma_next_block(q: int, d: int, n: int)
    requires
        d > 0,
        q >= 0,
        q * d < n,
    ensures
        (q * d + d - 1) / d == q,
        q + 1 <= (n + d - 1) / d,
        ((q * d + d + d - 1) / d) == q + 1,
{
    vstd::arithmetic::div_mod::lemma_div_multiples_vanish_fancy(q, d - 1, d);
    vstd::arithmetic::div_mod::lemma_div_multiples_vanish_fancy(q + 1, d - 1, d);
    assert(d * q == q * d) by (nonlinear_arith);
    assert(d * (q + 1) + d - 1 == q * d + d + d - 1) by (nonlinear_arith);
    assert(n + d - 1 >= d * (q + 1)) by (nonlinear_arith)
        requires
            q * d < n,
            d > 0,
    ;
    vstd::arithmetic::div_mod::lemma_div_is_ordered(d * (q + 1), n + d - 1, d);
    vstd::arithmetic::div_mod::lemma_div_multiples_vanish(q + 1, d);
}

/// The last partial block: when `n` is at most one block past `q * d`,
/// `ceil(n / d)` is `q + 1`.
proof fn lemma_last_block(q: int, d: int, n: int)
    requires
        d > 0,
        q >= 0,
        q * d < n <= q * d + d,
    ensures
        (n + d - 1) / d == q + 1,
{
    let b = n - q * d - 1;
    assert(0 <= b < d);
    vstd::arithmetic::div_mod::lemma_div_multiples_vanish_fancy(q + 1, b, d);
    assert(d * (q + 1) + b == n + d - 1) by (nonlinear_arith)
        requires
            b == n - q * d - 1,
    ;
}

/// Appends the data of `field` laid out by `plan`. Fails when the graph's
/// ordinals are not the stored nodes' ordinals or a node does not fit its
/// record.
fn encode_field_data(output: &mut Vec<u8>, field: &GraphField, plan: &FieldPlan) -> (r: Result<()>)
    requires
        shape_of(*field, *plan).fits(),
        field.max_degree <= u32::MAX,
        plan.nodes_per_sector > 0 ==> plan.nodes_per_sector * plan.record_bytes <= 4096,
        plan.nodes_per_sector == 0 ==> plan.record_bytes <= plan.sectors_per_node * 4096
            <= usize::MAX,
        plan.nodes_per_sector > 0 ==> plan.data_bytes == ((field.nodes@.len()
            + plan.nodes_per_sector - 1) / (plan.nodes_per_sector as int)) * 4096,
        plan.nodes_per_sector == 0 ==> plan.data_bytes == field.nodes@.len() * (
        plan.sectors_per_node * 4096),
        old(output)@.len() + plan.data_bytes <= usize::MAX,
    ensures
        r is Ok <==> nodes_encodable(*field),
        r is Ok ==> final(output)@.len() == old(output)@.len() + plan.data_bytes,
        r is Ok ==> final(output)@ == old(output)@ + field_data(*field, *plan),
        r matches Err(e) ==> e.code == ErrorCode::Internal,
{
    if !same_ordinals(field) {
        return Err(Error::internal("graph and vector ordinals differ"));
    }
    let shape = RecordShape {
        pq_chunks: match &field.codebook {
            Some(codebook) => Some(codebook.chunk_count),
            None => None,
        },
        dimension: field.dimension,
        max_degree: field.max_degree,
        record_bytes: plan.record_bytes,
    };
    let ghost records = field_records(*field, *plan);
    let ghost start = output@;
    let n = field.nodes.len();
    let mut i: usize = 0;
    if plan.nodes_per_sector > 0 {
        let per = plan.nodes_per_sector;
        let ghost mut acc: Seq<u8> = Seq::empty();
        proof {
            assert(records.skip(0) =~= records);
            vstd::arithmetic::div_mod::lemma_div_multiples_vanish_fancy(0, per - 1, per as int);
        }
        while i < n
            invariant
                shape == shape_of(*field, *plan),
                shape.fits(),
                field.max_degree <= u32::MAX,
                field.graph_ordinals@ == field.nodes@.map_values(|entry: (u64, DiskNode)| entry.0),
                records == field_records(*field, *plan),
                n == field.nodes@.len(),
                per == plan.nodes_per_sector,
                per > 0,
                per * plan.record_bytes <= 4096,
                i <= n,
                forall|t: int|
                    0 <= t < i ==> {
                        let node = #[trigger] field.nodes@[t].1;
                        &&& node.neighbors@.len() <= field.max_degree
                        &&& match field.codebook {
                            Some(codebook) => node.code@.len() == codebook.chunk_count,
                            None => node.vector_bits@.len() == field.dimension,
                        }
                    },
                output@ == start + acc,
                acc + packed(records.skip(i as int), per as int) == packed(records, per as int),
                i == n || i % per == 0,
                acc.len() == ((i + per - 1) / (per as int)) * 4096,
                start.len() + plan.data_bytes <= usize::MAX,
                plan.data_bytes == ((n + per - 1) / (per as int)) * 4096,
            decreases n - i,
        {
            proof {
                let q = i / per;
                vstd::arithmetic::div_mod::lemma_fundamental_div_mod(i as int, per as int);
                assert(i == q * per) by (nonlinear_arith)
                    requires
                        i == per * q + i % per,
                        i % per == 0,
                ;
                lemma_next_block(q as int, per as int, n as int);
            }
            let sector_start = output.len();
            let ghost i0 = i as int;
            let ghost rest = records.skip(i0);
            let ghost k: int = if ((n - i) as int) < (per as int) {
                (n - i) as int
            } else {
                per as int
            };
            let mut j: usize = 0;
            proof {
                assert(rest.take(0) =~= Seq::<Seq<u8>>::empty());
            }
            while j < per && i < n
                invariant
                    shape == shape_of(*field, *plan),
                    shape.fits(),
                    field.max_degree <= u32::MAX,
                    records == field_records(*field, *plan),
                    rest == records.skip(i0),
                    n == field.nodes@.len(),
                    0 <= i0 < n,
                    k == if n - i0 < per {
                        n - i0
                    } else {
                        per as int
                    },
                    i == i0 + j,
                    j <= k,
                    forall|t: int|
                        0 <= t < i ==> {
                            let node = #[trigger] field.nodes@[t].1;
                            &&& node.neighbors@.len() <= field.max_degree
                            &&& match field.codebook {
                                Some(codebook) => node.code@.len() == codebook.chunk_count,
                                None => node.vector_bits@.len() == field.dimension,
                            }
                        },
                    forall|t: int| 0 <= t < j ==> (#[trigger] rest[t]).len() == plan.record_bytes,
                    sector_start == (start + acc).len(),
                    output@ == start + acc + concat(rest.take(j as int)),
                decreases k - j,
            {
                let mut record = match encode_record(&shape, field.nodes[i].0, &field.nodes[i].1) {
                    Ok(record) => record,
                    Err(_) => {
                        return Err(Error::internal("graph node does not fit its record"));
                    },
                };
                proof {
                    assert(rest[j as int] == records[i as int]);
                    assert(record@ == records[i as int]);
                    lemma_node_record_len(
                        shape,
                        field.nodes@[i as int].0,
                        field.nodes@[i as int].1.vector_bits@,
                        field.nodes@[i as int].1.code@,
                        field.nodes@[i as int].1.neighbors@,
                    );
                    assert(rest.take(j + 1).drop_last() =~= rest.take(j as int));
                }
                output.append(&mut record);
                proof {
                    assert(output@ =~= start + acc + concat(rest.take(j + 1)));
                }
                i = i + 1;
                j = j + 1;
            }
            proof {
                assert(j == k);
                lemma_concat_len(rest.take(k), plan.record_bytes as int);
                assert(k * plan.record_bytes <= per * plan.record_bytes) by (nonlinear_arith)
                    requires
                        0 <= k <= per,
                        plan.record_bytes >= 0,
                ;
            }
            pad_to(output, sector_start + 4096);
            proof {
                let chunk = concat(rest.take(k));
                assert(rest.skip(k) =~= records.skip(i as int));
                assert(packed(rest, per as int) == chunk + zeros(4096 - chunk.len()) + packed(
                    rest.skip(k),
                    per as int,
                ));
                acc = acc + chunk + zeros(4096 - chunk.len());
                assert(output@ =~= start + acc);
                let q = i0 / (per as int);
                vstd::arithmetic::div_mod::lemma_fundamental_div_mod(i0, per as int);
                assert(i0 == q * per) by (nonlinear_arith)
                    requires
                        i0 == per * q + i0 % (per as int),
                        i0 % (per as int) == 0,
                ;
                lemma_next_block(q, per as int, n as int);
                if k == per {
                    assert(i == q * per + per);
                    assert(i == (q + 1) * per) by (nonlinear_arith)
                        requires
                            i == q * per + per,
                    ;
                    vstd::arithmetic::div_mod::lemma_mod_multiples_basic(q + 1, per as int);
                } else {
                    assert(i == n);
                    lemma_last_block(q, per as int, n as int);
                }
                assert(acc + packed(records.skip(i as int), per as int) =~= packed(records, per as int));
            }
        }
        proof {
            assert(records.skip(n as int) =~= Seq::<Seq<u8>>::empty());
            assert(acc =~= packed(records, per as int));
            assert(field_data(*field, *plan) == packed(records, per as int));
        }
    } else {
        let stride = plan.sectors_per_node * 4096;
        proof {
            assert(records.take(0) =~= Seq::<Seq<u8>>::empty());
            assert(start + strided(records.take(0), stride as int) =~= start);
        }
        while i < n
            invariant
                shape == shape_of(*field, *plan),
                shape.fits(),
                field.max_degree <= u32::MAX,
                records == field_records(*field, *plan),
                n == field.nodes@.len(),
                stride == plan.sectors_per_node * 4096,
                plan.record_bytes <= stride,
                i <= n,
                forall|t: int|
                    0 <= t < i ==> {
                        let node = #[trigger] field.nodes@[t].1;
                        &&& node.neighbors@.len() <= field.max_degree
                        &&& match field.codebook {
                            Some(codebook) => node.code@.len() == codebook.chunk_count,
                            None => node.vector_bits@.len() == field.dimension,
                        }
                    },
                output@ == start + strided(records.take(i as int), stride as int),
                output@.len() == start.len() + i * stride,
                start.len() + n * stride <= usize::MAX,
            decreases n - i,
        {
            proof {
                assert(i * stride + stride <= n * stride) by (nonlinear_arith)
                    requires
                        i < n,
                        stride >= 0,
                ;
            }
            let mut record = match encode_record(&shape, field.nodes[i].0, &field.nodes[i].1) {
                Ok(record) => record,
                Err(_) => {
                    return Err(Error::internal("graph node does not fit its record"));
                },
            };
            proof {
                lemma_node_record_len(
                    shape,
                    field.nodes@[i as int].0,
                    field.nodes@[i as int].1.vector_bits@,
                    field.nodes@[i as int].1.code@,
                    field.nodes@[i as int].1.neighbors@,
                );
                assert(records.take(i + 1).drop_last() =~= records.take(i as int));
            }
            let record_start = output.len();
            output.append(&mut record);
            pad_to(output, record_start + stride);
            proof {
                assert(output@ =~= start + strided(records.take(i + 1), stride as int));
                assert((i + 1) * stride == i * stride + stride) by (nonlinear_arith);
            }
            i = i + 1;
        }
        proof {
            assert(records.take(n as int) =~= records);
        }
    }
    Ok(())
}

/// One bit step of the reflected CRC-32 (IEEE) register: shift right and,
/// when a one left, fold in the reversed polynomial `0xEDB88320`.
pub open spec fn crc32_bit(c: u32) -> u32 {
    if c & 1 == 1 {
        (c >> 1) ^ 0xEDB8_8320u32
    } else {
        c >> 1
    }
}

/// The register after `n` bit steps.
pub open spec fn crc32_bits(c: u32, n: nat) -> u32
    decreases n,
{
    if n == 0 {
        c
    } else {
        crc32_bits(crc32_bit(c), (n - 1) as nat)
    }
}

/// The register after folding in `bytes`, each byte least significant bit
/// first.
pub open spec fn crc32_register(c: u32, bytes: Seq<u8>) -> u32
    decreases bytes.len(),
{
    if bytes.len() == 0 {
        c
    } else {
        crc32_register(crc32_bits(c ^ (bytes[0] as u32), 8), bytes.drop_first())
    }
}

/// The CRC-32 (IEEE) checksum of `bytes`: the reflected register started
/// at all ones, run over the bytes, then inverted.
pub open spec fn crc32(bytes: Seq<u8>) -> u32 {
    !crc32_register(0xFFFF_FFFFu32, bytes)
}

/// `crc32fast::hash`: the CRC-32 (IEEE) checksum of `bytes`. The crate's
/// lookup tables are those of the reversed polynomial `0xEDB88320`, its
/// state starts at zero and each update inverts it before and after, so
/// the register starts at all ones and ends inverted.
#[verifier::external_body]
pub(crate) fn crc32_hash(bytes: &[u8]) -> (r: u32)
    ensures
        r == crc32(bytes@),
{
    crc32fast::hash(bytes)
}

/// The magic bytes that open a sidecar: `A3SDAN01`.
pub open spec fn magic() -> Seq<u8> {
    seq![0x41u8, 0x33u8, 0x53u8, 0x44u8, 0x41u8, 0x4eu8, 0x30u8, 0x31u8]
}

/// The fixed header.
pub open spec fn header_image(
    field_count: u32,
    metadata_len: u32,
    data_offset: u64,
    total: u64,
    revision: u64,
    checksum: u32,
) -> Seq<u8> {
    magic() + spec_u32_to_le_bytes(FORMAT_VERSION) + spec_u32_to_le_bytes(4096u32)
        + spec_u32_to_le_bytes(field_count) + spec_u32_to_le_bytes(metadata_len)
        + spec_u64_to_le_bytes(data_offset) + spec_u64_to_le_bytes(total) + spec_u64_to_le_bytes(
        revision,
    ) + spec_u32_to_le_bytes(checksum) + zeros(12)
}

/// The layout of each field, as `prepare` computes it.
pub open spec fn spec_plans(fields: Seq<GraphField>, data_offset: int) -> Seq<FieldPlan> {
    Seq::new(
        fields.len(),
        |i: int|
            match spec_field_sizes(fields[i]) {
                Some(sizes) => FieldPlan {
                    record_bytes: sizes.0 as usize,
                    nodes_per_sector: sizes.1 as usize,
                    sectors_per_node: sizes.2 as usize,
                    data_offset: (data_offset + data_sum(fields, i)) as usize,
                    data_bytes: sizes.3 as usize,
                },
                None => FieldPlan {
                    record_bytes: 0,
                    nodes_per_sector: 0,
                    sectors_per_node: 0,
                    data_offset: 0,
                    data_bytes: 0,
                },
            },
    )
}

/// The data of the first `n` fields, one after another.
pub open spec fn fields_data(fields: Seq<GraphField>, plans: Seq<FieldPlan>, n: int) -> Seq<u8>
    decreases n,
{
    if n <= 0 {
        Seq::empty()
    } else {
        fields_data(fields, plans, n - 1) + field_data(fields[n - 1], plans[n - 1])
    }
}

/// Everything after the header: metadata, zero padding to the data offset,
/// and the fields' data.
pub open spec fn sidecar_body(
    fields: Seq<GraphField>,
    identity: Seq<u8>,
    digest: Seq<u8>,
) -> Seq<u8> {
    let metadata_len = spec_metadata_len(fields, identity.len() as int, digest.len() as int);
    let data_offset = spec_data_offset(metadata_len);
    let plans = spec_plans(fields, data_offset);
    metadata_image(fields, plans, identity, digest) + zeros(
        data_offset - FIXED_HEADER_BYTES - metadata_len,
    ) + fields_data(fields, plans, fields.len() as int)
}

/// The sidecar of `fields` for a source revision, identity and schema
/// digest: the header, whose checksum covers the body, then the body.
pub open spec fn sidecar_image(
    fields: Seq<GraphField>,
    revision: u64,
    identity: Seq<u8>,
    digest: Seq<u8>,
) -> Seq<u8> {
    let metadata_len = spec_metadata_len(fields, identity.len() as int, digest.len() as int);
    let data_offset = spec_data_offset(metadata_len);
    let total = data_offset + data_sum(fields, fields.len() as int);
    let body = sidecar_body(fields, identity, digest);
    header_image(
        fields.len() as u32,
        metadata_len as u32,
        data_offset as u64,
        total as u64,
        revision,
        crc32(body),
    ) + body
}

/// Every count the sidecar stores in a `u32` fits one: the field count, the
/// metadata length and each field's metadata counts.
pub open spec fn counts_fit(fields: Seq<GraphField>, identity_len: int, digest_len: int) -> bool {
    let data_offset = spec_data_offset(spec_metadata_len(fields, identity_len, digest_len));
    &&& fields.len() <= u32::MAX
    &&& spec_metadata_len(fields, identity_len, digest_len) <= u32::MAX
    &&& forall|i: int|
        0 <= i < fields.len() ==> entry_fits(fields[i], #[trigger] spec_plans(fields, data_offset)[i])
}

/// Every field's graph matches its stored nodes and every node fits its
/// record.
pub open spec fn all_nodes_encodable(fields: Seq<GraphField>) -> bool {
    forall|i: int| 0 <= i < fields.len() ==> nodes_encodable(#[trigger] fields[i])
}

/// The metadata image is as long as `prepare` computes.
proof fn lemma_metadata_len(
    fields: Seq<GraphField>,
    plans: Seq<FieldPlan>,
    identity: Seq<u8>,
    digest: Seq<u8>,
    n: int,
)
    requires
        0 <= n <= fields.len(),
    ensures
        field_entries(fields, plans, n).len() == meta_sum(fields, n),
    decreases n,
{
    lemma_auto_spec_u32_to_from_le_bytes();
    lemma_auto_spec_u64_to_from_le_bytes();
    if n > 0 {
        lemma_metadata_len(fields, plans, identity, digest, n - 1);
        lemma_words_len(centroid_words(fields[n - 1]));
        let f = fields[n - 1];
        assert(centroid_words(f).len() == centroid_len(f));
    }
}

/// What `prepare`'s plan promises about field `i`, in the form the data
/// encoder asks for.
proof fn lemma_plan_field(fields: Seq<GraphField>, plan: SidecarPlan, identity_len: int, digest_len: int, i: int)
    requires
        plan_fits(fields, identity_len, digest_len),
        plan_of(plan, fields, identity_len, digest_len),
        0 <= i < fields.len(),
    ensures
        ({
            let p = plan.fields@[i];
            let f = fields[i];
            &&& shape_of(f, p).fits()
            &&& p.nodes_per_sector > 0 ==> p.nodes_per_sector * p.record_bytes <= 4096
            &&& p.nodes_per_sector == 0 ==> p.record_bytes <= p.sectors_per_node * 4096 <= usize::MAX
            &&& p.nodes_per_sector > 0 ==> p.data_bytes == ((f.nodes@.len() + p.nodes_per_sector - 1)
                / (p.nodes_per_sector as int)) * 4096
            &&& p.nodes_per_sector == 0 ==> p.data_bytes == f.nodes@.len() * (p.sectors_per_node
                * 4096)
            &&& p.data_offset + p.data_bytes <= plan.total_bytes
            &&& p == spec_plans(fields, plan.data_offset as int)[i]
        }),
{
    let p = plan.fields@[i];
    let f = fields[i];
    assert(spec_field_sizes(fields[i]) is Some);
    let sizes = spec_field_sizes(f)->0;
    let raw = raw_record_bytes(f.dimension as int, f.max_degree as int, pq_chunks_of(f));
    let rb = p.record_bytes as int;
    assert(rb == ((raw + 7) / 8) * 8);
    assert(rb >= raw) by (nonlinear_arith)
        requires
            rb == ((raw + 7) / 8) * 8,
            raw >= 0,
    ;
    assert(shape_of(f, p).payload_end() + 8 * f.max_degree == raw);
    lemma_field_sizes_nonneg(f);
    if rb <= 4096 {
        let per = 4096int / rb;
        assert(per * rb <= 4096) by (nonlinear_arith)
            requires
                per == 4096int / rb,
                rb > 0,
        ;
        assert(p.nodes_per_sector as int == per);
        assert(per >= 1) by (nonlinear_arith)
            requires
                per == 4096int / rb,
                0 < rb <= 4096,
        ;
    } else {
        assert(rb + 4095 <= usize::MAX);
        let stride = ((rb + 4095) / 4096) * 4096;
        assert(stride / 4096 == (rb + 4095) / 4096) by {
            vstd::arithmetic::div_mod::lemma_div_multiples_vanish((rb + 4095) / 4096, 4096);
        }
        assert(stride >= rb) by (nonlinear_arith)
            requires
                stride == ((rb + 4095) / 4096) * 4096,
                rb >= 0,
        ;
        assert(stride <= rb + 4095) by (nonlinear_arith)
            requires
                stride == ((rb + 4095) / 4096) * 4096,
                rb >= 0,
        ;
        assert(p.sectors_per_node * 4096 == stride);
    }
    lemma_sums_grow(fields, i + 1, fields.len() as int);
    assert(data_sum(fields, i + 1) == data_sum(fields, i) + p.data_bytes);
}

/// Appends the fixed header.
fn push_header(
    output: &mut Vec<u8>,
    field_count: u32,
    metadata_len: u32,
    data_offset: u64,
    total: u64,
    revision: u64,
    checksum: u32,
)
    requires
        old(output)@.len() == 0,
    ensures
        final(output)@ == header_image(
            field_count,
            metadata_len,
            data_offset,
            total,
            revision,
            checksum,
        ),
{
    output.push(0x41);
    output.push(0x33);
    output.push(0x53);
    output.push(0x44);
    output.push(0x41);
    output.push(0x4e);
    output.push(0x30);
    output.push(0x31);
    proof {
        assert(output@ =~= magic());
    }
    push_u32(output, FORMAT_VERSION);
    push_u32(output, 4096);
    push_u32(output, field_count);
    push_u32(output, metadata_len);
    push_u64(output, data_offset);
    push_u64(output, total);
    push_u64(output, revision);
    push_u32(output, checksum);
    proof {
        lemma_auto_spec_u32_to_from_le_bytes();
        lemma_auto_spec_u64_to_from_le_bytes();
        assert(output@.len() == 52);
    }
    pad_to(output, 64);
    proof {
        assert(output@ =~= header_image(
            field_count,
            metadata_len,
            data_offset,
            total,
            revision,
            checksum,
        ));
    }
}

/// Appends every field's data.
fn encode_fields_data(
    body: &mut Vec<u8>,
    fields: &[GraphField],
    plan: &SidecarPlan,
    identity_len: Ghost<int>,
    digest_len: Ghost<int>,
) -> (r: Result<()>)
    requires
        plan_fits(fields@, identity_len@, digest_len@),
        plan_of(*plan, fields@, identity_len@, digest_len@),
        plan.fields@ == spec_plans(fields@, plan.data_offset as int),
        forall|i: int|
            0 <= i < fields@.len() ==> entry_fits(fields@[i], #[trigger] plan.fields@[i]),
        old(body)@.len() == plan.data_offset - FIXED_HEADER_BYTES,
    ensures
        r is Ok <==> all_nodes_encodable(fields@),
        r is Ok ==> final(body)@ == old(body)@ + fields_data(
            fields@,
            plan.fields@,
            fields@.len() as int,
        ),
        r is Ok ==> final(body)@.len() == old(body)@.len() + data_sum(fields@, fields@.len() as int),
        r matches Err(e) ==> e.code == ErrorCode::Internal,
{
    let ghost fs = fields@;
    let ghost plans = plan.fields@;
    let ghost head = body@;
    proof {
        lemma_sums_grow(fs, 0, fs.len() as int);
        assert(head + fields_data(fs, plans, 0) =~= head);
    }
    let mut f: usize = 0;
    while f < fields.len()
        invariant
            fs == fields@,
            plans == plan.fields@,
            plans == spec_plans(fs, plan.data_offset as int),
            plan_fits(fs, identity_len@, digest_len@),
            plan_of(*plan, fs, identity_len@, digest_len@),
            forall|i: int| 0 <= i < fs.len() ==> entry_fits(fs[i], #[trigger] plans[i]),
            f <= fs.len(),
            head.len() == plan.data_offset - FIXED_HEADER_BYTES,
            forall|i: int| 0 <= i < f ==> nodes_encodable(#[trigger] fs[i]),
            body@ == head + fields_data(fs, plans, f as int),
            body@.len() == plan.data_offset - FIXED_HEADER_BYTES + data_sum(fs, f as int),
        decreases fields.len() - f,
    {
        proof {
            lemma_plan_field(fs, *plan, identity_len@, digest_len@, f as int);
            assert(entry_fits(fs[f as int], plans[f as int]));
            assert(data_sum(fs, f + 1) == data_sum(fs, f as int) + plans[f as int].data_bytes);
            lemma_sums_grow(fs, f + 1, fs.len() as int);
        }
        match encode_field_data(body, &fields[f], &plan.fields[f]) {
            Ok(()) => {},
            Err(e) => {
                return Err(e);
            },
        }
        proof {
            assert(body@ =~= head + fields_data(fs, plans, f + 1));
        }
        f = f + 1;
    }
    Ok(())
}

/// Encodes the sidecar of `fields` for a source revision, identity and
/// schema digest; no fields need no sidecar. Fails with a resource error
/// when the layout overflows or a count does not fit its `u32` slot, and
/// with an internal error when a graph does not match its stored nodes or
/// a node does not fit its record.
pub fn encode(fields: &[GraphField], revision: u64, identity: &[u8], digest: &[u8]) -> (r: Result<
    Option<Vec<u8>>,
>)
    ensures
        ({
            let id_len = identity@.len() as int;
            let dg_len = digest@.len() as int;
            let fits = plan_fits(fields@, id_len, dg_len);
            match r {
                Ok(None) => fits && fields@.len() == 0,
                Ok(Some(bytes)) => {
                    &&& fits
                    &&& fields@.len() > 0
                    &&& counts_fit(fields@, id_len, dg_len)
                    &&& all_nodes_encodable(fields@)
                    &&& bytes@ == sidecar_image(fields@, revision, identity@, digest@)
                    &&& bytes@.len() == spec_data_offset(spec_metadata_len(fields@, id_len, dg_len))
                        + data_sum(fields@, fields@.len() as int)
                },
                Err(e) => if !fits || !counts_fit(fields@, id_len, dg_len) {
                    e.code == ErrorCode::ResourceExhausted
                } else {
                    e.code == ErrorCode::Internal && fields@.len() > 0 && !all_nodes_encodable(
                        fields@,
                    )
                },
            }
        }),
{
    let ghost fs = fields@;
    let ghost id_len = identity@.len() as int;
    let ghost dg_len = digest@.len() as int;
    let plan = prepare(fields, identity, digest)?;
    if fields.len() == 0 {
        return Ok(None);
    }
    let ghost md = spec_metadata_len(fs, id_len, dg_len);
    let ghost plans = spec_plans(fs, plan.data_offset as int);
    proof {
        assert forall|i: int| 0 <= i < fs.len() implies plan.fields@[i] == plans[i] by {
            lemma_plan_field(fs, plan, id_len, dg_len, i);
        }
        assert(plan.fields@ =~= plans);
    }
    let field_count = usize_to_u32(fields.len(), "field count")?;
    let metadata_len = usize_to_u32(plan.metadata_bytes, "metadata length")?;
    let mut body = match encode_metadata(fields, &plan.fields, identity, digest) {
        Ok(metadata) => metadata,
        Err(e) => {
            return Err(e);
        },
    };
    proof {
        lemma_auto_spec_u32_to_from_le_bytes();
        lemma_metadata_len(fs, plans, identity@, digest@, fs.len() as int);
        assert(body@.len() == md);
        assert(plan.data_offset >= FIXED_HEADER_BYTES + md) by (nonlinear_arith)
            requires
                plan.data_offset == ((FIXED_HEADER_BYTES + md + 4095) / 4096) * 4096,
                md >= 0,
        ;
        assert(plan.data_offset == spec_data_offset(md));
        assert forall|i: int| 0 <= i < fs.len() implies entry_fits(
            fs[i],
            #[trigger] spec_plans(fs, spec_data_offset(md))[i],
        ) by {
            assert(fields@[i].name@.len() <= u32::MAX);
            assert(entry_fits(fields@[i], plan.fields@[i]));
        }
        assert(counts_fit(fs, id_len, dg_len));
    }
    let ghost metadata = body@;
    pad_to(&mut body, plan.data_offset - FIXED_HEADER_BYTES);
    let ghost head = body@;
    match encode_fields_data(&mut body, fields, &plan, Ghost(id_len), Ghost(dg_len)) {
        Ok(()) => {},
        Err(e) => {
            return Err(e);
        },
    }
    proof {
        assert(head == metadata + zeros(plan.data_offset - FIXED_HEADER_BYTES - md));
        assert(body@ =~= sidecar_body(fs, identity@, digest@));
    }
    let checksum = crc32_hash(body.as_slice());
    let mut output: Vec<u8> = Vec::new();
    push_header(
        &mut output,
        field_count,
        metadata_len,
        plan.data_offset as u64,
        plan.total_bytes as u64,
        revision,
        checksum,
    );
    let ghost header = output@;
    proof {
        lemma_auto_spec_u64_to_from_le_bytes();
        assert(header.len() == 64);
    }
    output.append(&mut body);
    proof {
        assert(output@ =~= sidecar_image(fs, revision, identity@, digest@));
    }
    Ok(Some(output))
}

/// Whether `left` and `right` hold the same bytes.
fn same_bytes(left: &[u8], right: &[u8]) -> (r: bool)
    ensures
        r == (left@ == right@),
{
    if left.len() != right.len() {
        return false;
    }
    let mut i: usize = 0;
    while i < left.len()
        invariant
            left@.len() == right@.len(),
            i <= left@.len(),
            forall|j: int| 0 <= j < i ==> left@[j] == right@[j],
        decreases left.len() - i,
    {
        if left[i] != right[i] {
            return false;
        }
        i = i + 1;
    }
    proof {
        assert(left@ =~= right@);
    }
    true
}

/// Whether `bytes` is exactly the sidecar of `fields` for the given source
/// revision, identity and schema digest. Without fields no sidecar is
/// needed and any bytes (or none) are accepted; a layout that cannot be
/// prepared accepts nothing.
pub fn validates(
    bytes: Option<&[u8]>,
    fields: &[GraphField],
    revision: u64,
    identity: &[u8],
    digest: &[u8],
) -> (r: bool)
    ensures
        r == (plan_fits(fields@, identity@.len() as int, digest@.len() as int) && (fields@.len() == 0
            || (bytes matches Some(b) && counts_fit(
            fields@,
            identity@.len() as int,
            digest@.len() as int,
        ) && all_nodes_encodable(fields@) && b@ == sidecar_image(
            fields@,
            revision,
            identity@,
            digest@,
        )))),
{
    match encode(fields, revision, identity, digest) {
        Err(_) => false,
        Ok(None) => true,
        Ok(Some(expected)) => match bytes {
            None => false,
            Some(found) => same_bytes(found, expected.as_slice()),
        },
    }
}

/// The header describes the file it opens: it records the source
/// revision, the file's own length, and the checksum of everything after
/// the header.
pub proof fn law_header_describes_sidecar(
    fields: Seq<GraphField>,
    revision: u64,
    identity: Seq<u8>,
    digest: Seq<u8>,
    total: int,
)
    requires
        total == spec_data_offset(spec_metadata_len(fields, identity.len() as int, digest.len() as int))
            + data_sum(fields, fields.len() as int),
        0 <= total <= u64::MAX,
    ensures
        ({
            let image = sidecar_image(fields, revision, identity, digest);
            let body = sidecar_body(fields, identity, digest);
            &&& image.len() == FIXED_HEADER_BYTES + body.len()
            &&& image.subrange(0, 8) == magic()
            &&& spec_read_u64(image, 32) == Some(total as u64)
            &&& spec_read_u64(image, 40) == Some(revision)
            &&& spec_read_u32(image, 48) == Some(crc32(image.subrange(64, image.len() as int)))
        }),
{
    lemma_auto_spec_u32_to_from_le_bytes();
    lemma_auto_spec_u64_to_from_le_bytes();
    let metadata_len = spec_metadata_len(fields, identity.len() as int, digest.len() as int);
    let data_offset = spec_data_offset(metadata_len);
    let body = sidecar_body(fields, identity, digest);
    let image = sidecar_image(fields, revision, identity, digest);
    let first = magic() + spec_u32_to_le_bytes(FORMAT_VERSION) + spec_u32_to_le_bytes(4096u32)
        + spec_u32_to_le_bytes(fields.len() as u32) + spec_u32_to_le_bytes(metadata_len as u32)
        + spec_u64_to_le_bytes(data_offset as u64);
    assert(first.len() == 32);
    let total_word = spec_u64_to_le_bytes(total as u64);
    let revision_word = spec_u64_to_le_bytes(revision);
    let checksum_word = spec_u32_to_le_bytes(crc32(body));
    assert(image =~= first + total_word + (revision_word + checksum_word + zeros(12) + body));
    law_push_then_read_u64(first, revision_word + checksum_word + zeros(12) + body, total as u64);
    assert(image =~= (first + total_word) + revision_word + (checksum_word + zeros(12) + body));
    law_push_then_read_u64(first + total_word, checksum_word + zeros(12) + body, revision);
    assert(image =~= (first + total_word + revision_word) + checksum_word + (zeros(12) + body));
    law_push_then_read_u32(first + total_word + revision_word, zeros(12) + body, crc32(body));
    assert(image.subrange(64, image.len() as int) =~= body);
    assert(image.subrange(0, 8) =~= magic());
}

/// A sidecar names its source revision: sidecars of two different
/// revisions differ, so a sidecar never validates for another revision.
pub proof fn law_revision_distinguishes_sidecars(
    fields: Seq<GraphField>,
    revision: u64,
    other: u64,
    identity: Seq<u8>,
    digest: Seq<u8>,
)
    requires
        revision != other,
    ensures
        sidecar_image(fields, revision, identity, digest) != sidecar_image(
            fields,
            other,
            identity,
            digest,
        ),
{
    let total = spec_data_offset(spec_metadata_len(fields, identity.len() as int, digest.len() as int))
        + data_sum(fields, fields.len() as int);
    lemma_auto_spec_u32_to_from_le_bytes();
    lemma_auto_spec_u64_to_from_le_bytes();
    let metadata_len = spec_metadata_len(fields, identity.len() as int, digest.len() as int);
    let data_offset = spec_data_offset(metadata_len);
    let body = sidecar_body(fields, identity, digest);
    let first = magic() + spec_u32_to_le_bytes(FORMAT_VERSION) + spec_u32_to_le_bytes(4096u32)
        + spec_u32_to_le_bytes(fields.len() as u32) + spec_u32_to_le_bytes(metadata_len as u32)
        + spec_u64_to_le_bytes(data_offset as u64) + spec_u64_to_le_bytes(total as u64);
    assert(first.len() == 40);
    let tail = spec_u32_to_le_bytes(crc32(body)) + zeros(12) + body;
    assert(sidecar_image(fields, revision, identity, digest) =~= first + spec_u64_to_le_bytes(
        revision,
    ) + tail);
    assert(sidecar_image(fields, other, identity, digest) =~= first + spec_u64_to_le_bytes(other)
        + tail);
    law_push_then_read_u64(first, tail, revision);
    law_push_then_read_u64(first, tail, other);
}

/// In parts that are each `size` bytes long, part `t` starts at `t * size`.
proof fn lemma_concat_index(parts: Seq<Seq<u8>>, size: int, t: int)
    requires
        size >= 0,
        0 <= t < parts.len(),
        forall|i: int| 0 <= i < parts.len() ==> (#[trigger] parts[i]).len() == size,
    ensures
        t * size + size <= concat(parts).len(),
        concat(parts).subrange(t * size, t * size + size) == parts[t],
    decreases parts.len(),
{
    let rest = parts.drop_last();
    lemma_concat_len(parts, size);
    lemma_concat_len(rest, size);
    assert(t * size + size <= parts.len() * size) by (nonlinear_arith)
        requires
            t < parts.len(),
            size >= 0,
    ;
    if t == parts.len() - 1 {
        assert(concat(parts).subrange(t * size, t * size + size) =~= parts[t]);
    } else {
        lemma_concat_index(rest, size, t);
        assert(t * size + size <= rest.len() * size) by (nonlinear_arith)
            requires
                t < rest.len(),
                size >= 0,
        ;
        assert(concat(parts).subrange(t * size, t * size + size) =~= concat(rest).subrange(
            t * size,
            t * size + size,
        ));
    }
}

/// Packed records of `size` bytes fill `ceil(n / per_sector)` sectors, and
/// record `s` sits in sector `s / per_sector` at slot `s % per_sector`.
proof fn lemma_packed_layout(records: Seq<Seq<u8>>, per_sector: int, size: int, s: int)
    requires
        per_sector >= 1,
        size >= 0,
        per_sector * size <= 4096,
        forall|i: int| 0 <= i < records.len() ==> (#[trigger] records[i]).len() == size,
    ensures
        packed(records, per_sector).len() == ((records.len() + per_sector - 1) / per_sector) * 4096,
        0 <= s < records.len() ==> {
            let offset = (s / per_sector) * 4096 + (s % per_sector) * size;
            &&& offset + size <= packed(records, per_sector).len()
            &&& packed(records, per_sector).subrange(offset, offset + size) == records[s]
        },
    decreases records.len(),
{
    let n = records.len() as int;
    if n == 0 {
        vstd::arithmetic::div_mod::lemma_div_multiples_vanish_fancy(0, per_sector - 1, per_sector);
    } else {
        let k = if n < per_sector {
            n
        } else {
            per_sector
        };
        let head = records.take(k);
        let rest = records.skip(k);
        lemma_concat_len(head, size);
        assert(k * size <= per_sector * size) by (nonlinear_arith)
            requires
                0 <= k <= per_sector,
                size >= 0,
        ;
        let chunk = concat(head);
        let sector = chunk + zeros(4096 - chunk.len());
        assert(sector.len() == 4096);
        lemma_packed_layout(rest, per_sector, size, s - k);
        if n <= per_sector {
            lemma_last_block(0, per_sector, n);
        } else {
            assert(rest.len() == n - per_sector);
            assert((n + per_sector - 1) / per_sector == (n - per_sector + per_sector - 1) / per_sector
                + 1) by {
                let m = n - per_sector + per_sector - 1;
                vstd::arithmetic::div_mod::lemma_fundamental_div_mod(m, per_sector);
                vstd::arithmetic::div_mod::lemma_mod_pos_bound(m, per_sector);
                vstd::arithmetic::div_mod::lemma_div_multiples_vanish_fancy(
                    m / per_sector + 1,
                    m % per_sector,
                    per_sector,
                );
                assert(per_sector * (m / per_sector + 1) + m % per_sector == m + per_sector)
                    by (nonlinear_arith)
                    requires
                        m == per_sector * (m / per_sector) + m % per_sector,
                ;
            }
        }
        if 0 <= s < n {
            if s < k {
                lemma_concat_index(head, size, s);
                vstd::arithmetic::div_mod::lemma_div_multiples_vanish_fancy(0, s, per_sector);
                vstd::arithmetic::div_mod::lemma_fundamental_div_mod(s, per_sector);
                assert(s % per_sector == s);
                assert(packed(records, per_sector).subrange(s * size, s * size + size) =~= chunk.subrange(
                    s * size,
                    s * size + size,
                ));
                assert(head[s] == records[s]);
            } else {
                let t = s - per_sector;
                assert(k == per_sector);
                assert(rest[t] == records[s]);
                vstd::arithmetic::div_mod::lemma_fundamental_div_mod(t, per_sector);
                vstd::arithmetic::div_mod::lemma_mod_pos_bound(t, per_sector);
                vstd::arithmetic::div_mod::lemma_div_multiples_vanish_fancy(
                    t / per_sector + 1,
                    t % per_sector,
                    per_sector,
                );
                assert(per_sector * (t / per_sector + 1) + t % per_sector == s) by (nonlinear_arith)
                    requires
                        t == per_sector * (t / per_sector) + t % per_sector,
                        t == s - per_sector,
                ;
                assert(s / per_sector == t / per_sector + 1);
                vstd::arithmetic::div_mod::lemma_fundamental_div_mod(s, per_sector);
                assert(s % per_sector == t % per_sector) by (nonlinear_arith)
                    requires
                        s == per_sector * (s / per_sector) + s % per_sector,
                        t == per_sector * (t / per_sector) + t % per_sector,
                        s / per_sector == t / per_sector + 1,
                        t == s - per_sector,
                ;
                let inner = (t / per_sector) * 4096 + (t % per_sector) * size;
                let qs = s / per_sector;
                let rs = s % per_sector;
                let qt = t / per_sector;
                let rt = t % per_sector;
                assert(qs * 4096 + rs * size == 4096 + (qt * 4096 + rt * size)) by (nonlinear_arith)
                    requires
                        qs == qt + 1,
                        rs == rt,
                ;
                assert(packed(records, per_sector) == sector + packed(rest, per_sector));
                assert(packed(records, per_sector).subrange(4096 + inner, 4096 + inner + size)
                    =~= packed(rest, per_sector).subrange(inner, inner + size));
            }
        }
    }
}

/// Strided records of `size` bytes fill `n * stride` bytes, and record `s`
/// starts at `s * stride`.
proof fn lemma_strided_layout(records: Seq<Seq<u8>>, stride: int, size: int, s: int)
    requires
        0 <= size <= stride,
        forall|i: int| 0 <= i < records.len() ==> (#[trigger] records[i]).len() == size,
    ensures
        strided(records, stride).len() == records.len() * stride,
        0 <= s < records.len() ==> s * stride + size <= strided(records, stride).len()
            && strided(records, stride).subrange(s * stride, s * stride + size) == records[s],
    decreases records.len(),
{
    let n = records.len() as int;
    if n > 0 {
        let rest = records.drop_last();
        lemma_strided_layout(rest, stride, size, s);
        assert(n * stride == (n - 1) * stride + stride) by (nonlinear_arith);
        if 0 <= s < n {
            assert(s * stride + stride <= n * stride) by (nonlinear_arith)
                requires
                    s < n,
                    stride >= 0,
            ;
            if s == n - 1 {
                assert(strided(records, stride).subrange(s * stride, s * stride + size)
                    =~= records[s]);
            } else {
                assert(s * stride + stride <= (n - 1) * stride) by (nonlinear_arith)
                    requires
                        s < n - 1,
                        stride >= 0,
                ;
                assert(strided(records, stride).subrange(s * stride, s * stride + size)
                    =~= strided(rest, stride).subrange(s * stride, s * stride + size));
            }
        }
    }
}

/// The layout `prepare` gives field `i`, from the specification alone.
proof fn lemma_spec_plan_field(fields: Seq<GraphField>, identity_len: int, digest_len: int, i: int)
    requires
        identity_len >= 0,
        digest_len >= 0,
        plan_fits(fields, identity_len, digest_len),
        0 <= i < fields.len(),
    ensures
        ({
            let data_offset = spec_data_offset(spec_metadata_len(fields, identity_len, digest_len));
            let p = spec_plans(fields, data_offset)[i];
            let f = fields[i];
            &&& shape_of(f, p).fits()
            &&& p.nodes_per_sector > 0 ==> p.nodes_per_sector * p.record_bytes <= 4096
            &&& p.nodes_per_sector == 0 ==> p.record_bytes <= p.sectors_per_node * 4096 <= usize::MAX
            &&& p.nodes_per_sector > 0 ==> p.data_bytes == ((f.nodes@.len() + p.nodes_per_sector - 1)
                / (p.nodes_per_sector as int)) * 4096
            &&& p.nodes_per_sector == 0 ==> p.data_bytes == f.nodes@.len() * (p.sectors_per_node
                * 4096)
            &&& p.data_offset == data_offset + data_sum(fields, i)
            &&& p.data_bytes + data_sum(fields, i) == data_sum(fields, i + 1)
            &&& data_sum(fields, i + 1) <= data_sum(fields, fields.len() as int)
        }),
{
    let data_offset = spec_data_offset(spec_metadata_len(fields, identity_len, digest_len));
    let p = spec_plans(fields, data_offset)[i];
    let f = fields[i];
    assert(spec_field_sizes(fields[i]) is Some);
    let sizes = spec_field_sizes(f)->0;
    lemma_field_sizes_nonneg(f);
    lemma_sums_grow(fields, 0, fields.len() as int);
    lemma_sums_grow(fields, i + 1, fields.len() as int);
    lemma_sums_grow(fields, i, i + 1);
    assert(data_offset >= 0) by (nonlinear_arith)
        requires
            data_offset == ((FIXED_HEADER_BYTES + spec_metadata_len(fields, identity_len, digest_len)
                + 4095) / 4096) * 4096,
            spec_metadata_len(fields, identity_len, digest_len) >= 0,
    ;
    assert(data_offset + data_sum(fields, fields.len() as int) <= MAX_FILE_BYTES);
    let raw = raw_record_bytes(f.dimension as int, f.max_degree as int, pq_chunks_of(f));
    let rb = sizes.0;
    assert(rb == ((raw + 7) / 8) * 8);
    assert(rb >= raw) by (nonlinear_arith)
        requires
            rb == ((raw + 7) / 8) * 8,
            raw >= 0,
    ;
    assert(p.record_bytes == rb);
    assert(p.data_bytes == sizes.3);
    assert(p.data_offset == data_offset + data_sum(fields, i));
    assert(shape_of(f, p).payload_end() + 8 * f.max_degree == raw);
    if rb <= 4096 {
        let per = 4096int / rb;
        assert(per * rb <= 4096) by (nonlinear_arith)
            requires
                per == 4096int / rb,
                rb > 0,
        ;
        assert(per >= 1) by (nonlinear_arith)
            requires
                per == 4096int / rb,
                0 < rb <= 4096,
        ;
        assert(p.nodes_per_sector as int == per);
    } else {
        let stride = ((rb + 4095) / 4096) * 4096;
        assert(stride / 4096 == (rb + 4095) / 4096) by {
            vstd::arithmetic::div_mod::lemma_div_multiples_vanish((rb + 4095) / 4096, 4096);
        }
        assert(stride >= rb) by (nonlinear_arith)
            requires
                stride == ((rb + 4095) / 4096) * 4096,
                rb >= 0,
        ;
        assert(stride <= rb + 4095) by (nonlinear_arith)
            requires
                stride == ((rb + 4095) / 4096) * 4096,
                rb >= 0,
        ;
        assert(p.sectors_per_node * 4096 == stride);
    }
}

/// Where record `s` of a field sits in the field's data.
pub open spec fn record_offset_in_field(plan: FieldPlan, s: int) -> int {
    record_offset(
        plan.nodes_per_sector as int,
        plan.sectors_per_node as int,
        plan.record_bytes as int,
        s,
    )
}

/// A field's data is `data_bytes` long and holds record `s` at
/// `record_offset_in_field(s)`.
proof fn lemma_field_data_layout(fields: Seq<GraphField>, identity_len: int, digest_len: int, i: int, s: int)
    requires
        identity_len >= 0,
        digest_len >= 0,
        plan_fits(fields, identity_len, digest_len),
        all_nodes_encodable(fields),
        0 <= i < fields.len(),
    ensures
        ({
            let data_offset = spec_data_offset(spec_metadata_len(fields, identity_len, digest_len));
            let p = spec_plans(fields, data_offset)[i];
            let f = fields[i];
            let data = field_data(f, p);
            &&& data.len() == p.data_bytes
            &&& 0 <= s < f.nodes@.len() ==> record_offset_in_field(p, s) + p.record_bytes <= data.len()
                && data.subrange(
                record_offset_in_field(p, s),
                record_offset_in_field(p, s) + p.record_bytes,
            ) == field_records(f, p)[s]
        }),
{
    let data_offset = spec_data_offset(spec_metadata_len(fields, identity_len, digest_len));
    let p = spec_plans(fields, data_offset)[i];
    let f = fields[i];
    lemma_spec_plan_field(fields, identity_len, digest_len, i);
    let records = field_records(f, p);
    assert(nodes_encodable(fields[i]));
    assert forall|t: int| 0 <= t < records.len() implies (#[trigger] records[t]).len()
        == p.record_bytes by {
        let node = f.nodes@[t].1;
        assert(node.neighbors@.len() <= f.max_degree);
        lemma_node_record_len(
            shape_of(f, p),
            f.nodes@[t].0,
            node.vector_bits@,
            node.code@,
            node.neighbors@,
        );
    }
    if p.nodes_per_sector > 0 {
        lemma_packed_layout(records, p.nodes_per_sector as int, p.record_bytes as int, s);
    } else {
        lemma_strided_layout(records, p.sectors_per_node * 4096, p.record_bytes as int, s);
    }
}

/// The fields' data lie one after another, field `i` at `data_sum(i)`.
proof fn lemma_fields_data_layout(
    fields: Seq<GraphField>,
    identity_len: int,
    digest_len: int,
    n: int,
    i: int,
)
    requires
        identity_len >= 0,
        digest_len >= 0,
        plan_fits(fields, identity_len, digest_len),
        all_nodes_encodable(fields),
        0 <= n <= fields.len(),
    ensures
        ({
            let data_offset = spec_data_offset(spec_metadata_len(fields, identity_len, digest_len));
            let plans = spec_plans(fields, data_offset);
            &&& fields_data(fields, plans, n).len() == data_sum(fields, n)
            &&& 0 <= i < n ==> fields_data(fields, plans, n).subrange(
                data_sum(fields, i),
                data_sum(fields, i + 1),
            ) == field_data(fields[i], plans[i])
        }),
    decreases n,
{
    let data_offset = spec_data_offset(spec_metadata_len(fields, identity_len, digest_len));
    let plans = spec_plans(fields, data_offset);
    if n > 0 {
        lemma_fields_data_layout(fields, identity_len, digest_len, n - 1, i);
        lemma_field_data_layout(fields, identity_len, digest_len, n - 1, 0);
        lemma_spec_plan_field(fields, identity_len, digest_len, n - 1);
        if 0 <= i < n - 1 {
            lemma_sums_grow(fields, i + 1, n - 1);
            lemma_sums_grow(fields, i, i + 1);
            assert(fields_data(fields, plans, n).subrange(data_sum(fields, i), data_sum(fields, i + 1))
                =~= fields_data(fields, plans, n - 1).subrange(
                data_sum(fields, i),
                data_sum(fields, i + 1),
            ));
        } else if i == n - 1 {
            assert(fields_data(fields, plans, n).subrange(data_sum(fields, i), data_sum(fields, i + 1))
                =~= field_data(fields[i], plans[i]));
        }
    }
}

/// A window past the first part of a concatenation is a window of the
/// second part.
proof fn lemma_window_after(first: Seq<u8>, second: Seq<u8>, lo: int, hi: int)
    requires
        first.len() <= lo <= hi <= first.len() + second.len(),
    ensures
        (first + second).subrange(lo, hi) == second.subrange(lo - first.len(), hi - first.len()),
{
    assert((first + second).subrange(lo, hi) =~= second.subrange(
        lo - first.len(),
        hi - first.len(),
    ));
}

/// A window of a window is a window.
proof fn lemma_window_of_window(bytes: Seq<u8>, a: int, b: int, c: int, d: int)
    requires
        0 <= a <= b <= bytes.len(),
        0 <= c <= d <= b - a,
    ensures
        bytes.subrange(a, b).subrange(c, d) == bytes.subrange(a + c, a + d),
{
    assert(bytes.subrange(a, b).subrange(c, d) =~= bytes.subrange(a + c, a + d));
}

/// A sidecar is `data_offset` bytes of header, metadata and padding, then
/// the fields' data.
proof fn lemma_image_split(
    fields: Seq<GraphField>,
    revision: u64,
    identity: Seq<u8>,
    digest: Seq<u8>,
) -> (prefix: Seq<u8>)
    requires
        plan_fits(fields, identity.len() as int, digest.len() as int),
    ensures
        ({
            let md = spec_metadata_len(fields, identity.len() as int, digest.len() as int);
            let data_offset = spec_data_offset(md);
            let plans = spec_plans(fields, data_offset);
            &&& prefix.len() == data_offset
            &&& sidecar_image(fields, revision, identity, digest) == prefix + fields_data(
                fields,
                plans,
                fields.len() as int,
            )
        }),
{
    lemma_auto_spec_u32_to_from_le_bytes();
    lemma_auto_spec_u64_to_from_le_bytes();
    let id_len = identity.len() as int;
    let dg_len = digest.len() as int;
    let md = spec_metadata_len(fields, id_len, dg_len);
    let data_offset = spec_data_offset(md);
    let plans = spec_plans(fields, data_offset);
    let n = fields.len() as int;
    lemma_metadata_len(fields, plans, identity, digest, n);
    lemma_sums_grow(fields, 0, n);
    assert(data_offset >= FIXED_HEADER_BYTES + md) by (nonlinear_arith)
        requires
            data_offset == ((FIXED_HEADER_BYTES + md + 4095) / 4096) * 4096,
            md >= 0,
    ;
    let metadata = metadata_image(fields, plans, identity, digest);
    let body = sidecar_body(fields, identity, digest);
    let header = header_image(
        fields.len() as u32,
        md as u32,
        data_offset as u64,
        (data_offset + data_sum(fields, n)) as u64,
        revision,
        crc32(body),
    );
    assert(header.len() == 64);
    let prefix = header + metadata + zeros(data_offset - FIXED_HEADER_BYTES - md);
    assert(sidecar_image(fields, revision, identity, digest) =~= prefix + fields_data(
        fields,
        plans,
        n,
    ));
    prefix
}

/// What a writer stores is where a reader looks: record `s` of field `i`
/// sits in the sidecar at the field's data offset plus `record_offset(s)`,
/// the offset at which `NodeLayout::record_position` places the `s`-th
/// record, and it is the node's canonical record.
pub proof fn law_records_sit_where_readers_look(
    fields: Seq<GraphField>,
    revision: u64,
    identity: Seq<u8>,
    digest: Seq<u8>,
    i: int,
    s: int,
)
    requires
        plan_fits(fields, identity.len() as int, digest.len() as int),
        all_nodes_encodable(fields),
        0 <= i < fields.len(),
        0 <= s < fields[i].nodes@.len(),
    ensures
        ({
            let image = sidecar_image(fields, revision, identity, digest);
            let data_offset = spec_data_offset(
                spec_metadata_len(fields, identity.len() as int, digest.len() as int),
            );
            let p = spec_plans(fields, data_offset)[i];
            let f = fields[i];
            let position = p.data_offset + record_offset_in_field(p, s);
            &&& position + p.record_bytes <= image.len()
            &&& image.subrange(position, position + p.record_bytes) == node_record(
                shape_of(f, p),
                f.nodes@[s].0,
                f.nodes@[s].1.vector_bits@,
                f.nodes@[s].1.code@,
                f.nodes@[s].1.neighbors@,
            )
        }),
{
    let id_len = identity.len() as int;
    let dg_len = digest.len() as int;
    let md = spec_metadata_len(fields, id_len, dg_len);
    let data_offset = spec_data_offset(md);
    let plans = spec_plans(fields, data_offset);
    let p = plans[i];
    let n = fields.len() as int;
    let data = fields_data(fields, plans, n);
    let prefix = lemma_image_split(fields, revision, identity, digest);
    lemma_fields_data_layout(fields, id_len, dg_len, n, i);
    lemma_field_data_layout(fields, id_len, dg_len, i, s);
    lemma_spec_plan_field(fields, id_len, dg_len, i);
    let field_start = data_sum(fields, i);
    let field_end = data_sum(fields, i + 1);
    let within = record_offset_in_field(p, s);
    let position = p.data_offset + within;
    let rb = p.record_bytes as int;
    lemma_sums_grow(fields, 0, i);
    lemma_window_after(prefix, data, position, position + rb);
    lemma_window_of_window(data, field_start, field_end, within, within + rb);
}

} // verus!
