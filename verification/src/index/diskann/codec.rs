//! Primitive little-endian helpers for the native sector format.

use crate::error::{Error, ErrorCode, Result};
use vstd::slice::*;
use vstd::string::*;
use vstd::bytes::*;
use vstd::prelude::*;

verus! {

/// The little-endian value of four bytes at `offset`, when they exist.
pub open spec fn spec_read_u32(bytes: Seq<u8>, offset: int) -> Option<u32> {
    if 0 <= offset && offset + 4 <= bytes.len() {
        Some(spec_u32_from_le_bytes(bytes.subrange(offset, offset + 4)))
    } else {
        None
    }
}

/// The little-endian value of eight bytes at `offset`, when they exist.
pub open spec fn spec_read_u64(bytes: Seq<u8>, offset: int) -> Option<u64> {
    if 0 <= offset && offset + 8 <= bytes.len() {
        Some(spec_u64_from_le_bytes(bytes.subrange(offset, offset + 8)))
    } else {
        None
    }
}

/// Appends the four little-endian bytes of `value`.
pub fn push_u32(output: &mut Vec<u8>, value: u32)
    ensures
        final(output)@ == old(output)@ + spec_u32_to_le_bytes(value),
{
    let mut bytes = u32_to_le_bytes(value);
    output.append(&mut bytes);
}

/// Appends the eight little-endian bytes of `value`.
pub fn push_u64(output: &mut Vec<u8>, value: u64)
    ensures
        final(output)@ == old(output)@ + spec_u64_to_le_bytes(value),
{
    let mut bytes = u64_to_le_bytes(value);
    output.append(&mut bytes);
}

/// Overwrites `bytes.len()` bytes of `output` starting at `offset`.
fn write_at(output: &mut [u8], offset: usize, bytes: &Vec<u8>)
    requires
        offset + bytes@.len() <= old(output)@.len(),
    ensures
        final(output)@ == old(output)@.subrange(0, offset as int) + bytes@ + old(output)@.subrange(
            offset + bytes@.len(),
            old(output)@.len() as int,
        ),
{
    let length = output.len();
    let count = bytes.len();
    let mut i: usize = 0;
    while i < count
        invariant
            i <= count,
            count == bytes@.len(),
            offset + count <= old(output)@.len(),
            length == old(output)@.len(),
            output@.len() == old(output)@.len(),
            forall|k: int|
                0 <= k < output@.len() ==> #[trigger] output@[k] == if offset <= k < offset + i {
                    bytes@[k - offset]
                } else {
                    old(output)@[k]
                },
        decreases count - i,
    {
        output[offset + i] = bytes[i];
        i = i + 1;
    }
    assert(output@ =~= old(output)@.subrange(0, offset as int) + bytes@ + old(output)@.subrange(
        offset + bytes@.len(),
        old(output)@.len() as int,
    ));
}

/// Overwrites four bytes at `offset` with the little-endian bytes of `value`.
pub fn put_u32(output: &mut [u8], offset: usize, value: u32)
    requires
        offset + 4 <= old(output)@.len(),
    ensures
        final(output)@ == old(output)@.subrange(0, offset as int) + spec_u32_to_le_bytes(value)
            + old(output)@.subrange(offset + 4, old(output)@.len() as int),
{
    let bytes = u32_to_le_bytes(value);
    write_at(output, offset, &bytes);
}

/// Overwrites eight bytes at `offset` with the little-endian bytes of `value`.
pub fn put_u64(output: &mut [u8], offset: usize, value: u64)
    requires
        offset + 8 <= old(output)@.len(),
    ensures
        final(output)@ == old(output)@.subrange(0, offset as int) + spec_u64_to_le_bytes(value)
            + old(output)@.subrange(offset + 8, old(output)@.len() as int),
{
    let bytes = u64_to_le_bytes(value);
    write_at(output, offset, &bytes);
}

/// Reads the little-endian `u32` at `offset`, or `None` past the end.
pub fn read_u32(bytes: &[u8], offset: usize) -> (r: Option<u32>)
    requires
        offset + 4 <= usize::MAX,
    ensures
        r == spec_read_u32(bytes@, offset as int),
{
    if offset + 4 <= bytes.len() {
        let window = slice_subrange(bytes, offset, offset + 4);
        Some(u32_from_le_bytes(window))
    } else {
        None
    }
}

/// Reads the little-endian `u64` at `offset`, or `None` past the end.
pub fn read_u64(bytes: &[u8], offset: usize) -> (r: Option<u64>)
    requires
        offset + 8 <= usize::MAX,
    ensures
        r == spec_read_u64(bytes@, offset as int),
{
    if offset + 8 <= bytes.len() {
        let window = slice_subrange(bytes, offset, offset + 8);
        Some(u64_from_le_bytes(window))
    } else {
        None
    }
}

/// The error returned when a DiskANN quantity does not fit its field.
fn exceeds_error(label: &str, suffix: &str) -> (e: Error)
    ensures
        e.code == ErrorCode::ResourceExhausted,
{
    let mut message = String::from_str("DiskANN ");
    message.append(label);
    message.append(suffix);
    Error::new(ErrorCode::ResourceExhausted, message)
}

/// Narrows `value` to `u32`, failing with a resource error when it does not fit.
pub fn usize_to_u32(value: usize, label: &str) -> (r: Result<u32>)
    ensures
        value <= u32::MAX ==> (r matches Ok(v) && v == value),
        value > u32::MAX ==> (r matches Err(e) && e.code == ErrorCode::ResourceExhausted),
{
    if value <= u32::MAX as usize {
        Ok(value as u32)
    } else {
        Err(exceeds_error(label, " exceeds u32"))
    }
}

/// Widens `value` to `u64`, failing with a resource error when it does not fit.
pub fn usize_to_u64(value: usize, label: &str) -> (r: Result<u64>)
    ensures
        value <= u64::MAX ==> (r matches Ok(v) && v == value),
        value > u64::MAX ==> (r matches Err(e) && e.code == ErrorCode::ResourceExhausted),
{
    if value as u128 <= u64::MAX as u128 {
        Ok(value as u64)
    } else {
        Err(exceeds_error(label, " exceeds u64"))
    }
}

/// The encoded length of a length-prefixed byte string: its bytes plus a
/// four-byte length.
pub fn encoded_bytes_len(bytes: &[u8]) -> (r: Result<usize>)
    ensures
        bytes@.len() <= u32::MAX && bytes@.len() + 4 <= usize::MAX ==> (r matches Ok(n) && n
            == bytes@.len() + 4),
        !(bytes@.len() <= u32::MAX && bytes@.len() + 4 <= usize::MAX) ==> (r matches Err(e)
            && e.code == ErrorCode::ResourceExhausted),
{
    let _ = usize_to_u32(bytes.len(), "metadata string length")?;
    match bytes.len().checked_add(4) {
        Some(n) => Ok(n),
        None => Err(Error::resource_exhausted("DiskANN metadata string length overflow")),
    }
}

/// Appends a length-prefixed byte string: the `u32` length, then the bytes.
pub fn push_bytes(output: &mut Vec<u8>, bytes: &[u8]) -> (r: Result<()>)
    ensures
        bytes@.len() <= u32::MAX ==> r is Ok && final(output)@ == old(output)@
            + spec_u32_to_le_bytes(bytes@.len() as u32) + bytes@,
        bytes@.len() > u32::MAX ==> (r matches Err(e) && e.code == ErrorCode::ResourceExhausted
            && final(output)@ == old(output)@),
{
    let length = usize_to_u32(bytes.len(), "metadata string length")?;
    push_u32(output, length);
    let mut copy = slice_to_vec(bytes);
    output.append(&mut copy);
    Ok(())
}

/// Rounds `value` up to the next multiple of `alignment`; `None` for a zero
/// alignment or on overflow.
pub fn align_up(value: usize, alignment: usize) -> (r: Option<usize>)
    ensures
        alignment == 0 || value + alignment - 1 > usize::MAX ==> r is None,
        alignment > 0 && value + alignment - 1 <= usize::MAX ==> r == Some(
            (((value + alignment - 1) / alignment as int) * alignment) as usize,
        ),
        r matches Some(n) ==> value <= n < value + alignment && n % alignment == 0,
{
    let step = alignment.checked_sub(1)?;
    let rounded = value.checked_add(step)?;
    let quotient = rounded / alignment;
    proof {
        lemma_round_up(value as int, alignment as int);
    }
    Some(quotient * alignment)
}

/// Rounding `value` up through `(value + a - 1) / a * a` gives the least
/// multiple of `a` at or above `value`.
proof fn lemma_round_up(value: int, a: int)
    requires
        a > 0,
        value >= 0,
    ensures
        ((value + a - 1) / a) * a <= value + a - 1,
        value <= ((value + a - 1) / a) * a,
        (((value + a - 1) / a) * a) % a == 0,
{
    let q = (value + a - 1) / a;
    let r = (value + a - 1) % a;
    vstd::arithmetic::div_mod::lemma_fundamental_div_mod(value + a - 1, a);
    vstd::arithmetic::div_mod::lemma_mod_multiples_basic(q, a);
    assert(0 <= r < a) by {
        vstd::arithmetic::div_mod::lemma_mod_pos_bound(value + a - 1, a);
    }
}

/// A forward cursor over a byte slice.
pub struct SliceReader<'a> {
    bytes: &'a [u8],
    position: usize,
}

impl<'a> SliceReader<'a> {
    #[verifier::type_invariant]
    spec fn cursor_in_bounds(&self) -> bool {
        self.position <= self.bytes@.len()
    }

    /// The bytes being read.
    pub closed spec fn contents(&self) -> Seq<u8> {
        self.bytes@
    }

    /// The offset of the next unread byte.
    pub closed spec fn offset(&self) -> int {
        self.position as int
    }

    /// A reader positioned at the start of `bytes`.
    pub fn new(bytes: &'a [u8]) -> (r: Self)
        ensures
            r.contents() == bytes@,
            r.offset() == 0,
    {
        Self { bytes, position: 0 }
    }

    /// Reads the next little-endian `u32`; on `None` the cursor stays put.
    pub fn read_u32(&mut self) -> (r: Option<u32>)
        ensures
            final(self).contents() == old(self).contents(),
            r == spec_read_u32(old(self).contents(), old(self).offset()),
            r is Some ==> final(self).offset() == old(self).offset() + 4,
            r is None ==> final(self).offset() == old(self).offset(),
    {
        proof {
            use_type_invariant(&*self);
        }
        let total = self.bytes.len();
        if self.position > usize::MAX - 4 {
            return None;
        }
        let value = read_u32(self.bytes, self.position)?;
        self.position = self.position + 4;
        Some(value)
    }

    /// Reads the next little-endian `u64`; on `None` the cursor stays put.
    pub fn read_u64(&mut self) -> (r: Option<u64>)
        ensures
            final(self).contents() == old(self).contents(),
            r == spec_read_u64(old(self).contents(), old(self).offset()),
            r is Some ==> final(self).offset() == old(self).offset() + 8,
            r is None ==> final(self).offset() == old(self).offset(),
    {
        proof {
            use_type_invariant(&*self);
        }
        let total = self.bytes.len();
        if self.position > usize::MAX - 8 {
            return None;
        }
        let value = read_u64(self.bytes, self.position)?;
        self.position = self.position + 8;
        Some(value)
    }

    /// Reads a `u32` length and then that many bytes. When the length is
    /// present but the bytes are not, the cursor has still moved past the
    /// length.
    pub fn read_bytes(&mut self) -> (r: Option<&'a [u8]>)
        ensures
            final(self).contents() == old(self).contents(),
            ({
                let start = old(self).offset();
                let bytes = old(self).contents();
                match spec_read_u32(bytes, start) {
                    None => r is None && final(self).offset() == start,
                    Some(n) => if start + 4 + n <= bytes.len() {
                        r matches Some(v) && v@ == bytes.subrange(start + 4, start + 4 + n)
                            && final(self).offset() == start + 4 + n
                    } else {
                        r is None && final(self).offset() == start + 4
                    },
                }
            }),
    {
        let length = self.read_u32()? as usize;
        proof {
            use_type_invariant(&*self);
        }
        let total = self.bytes.len();
        let end = self.position.checked_add(length)?;
        if end > self.bytes.len() {
            return None;
        }
        let value = slice_subrange(self.bytes, self.position, end);
        self.position = end;
        Some(value)
    }

    /// Whether every byte has been read.
    pub fn is_empty(&self) -> (r: bool)
        ensures
            r == (self.offset() == self.contents().len()),
    {
        self.position == self.bytes.len()
    }
}

/// Reading back what was written: the four bytes that `push_u32` appends
/// read as the same value at the offset where they were appended.
pub proof fn law_push_then_read_u32(prefix: Seq<u8>, suffix: Seq<u8>, value: u32)
    ensures
        spec_read_u32(prefix + spec_u32_to_le_bytes(value) + suffix, prefix.len() as int) == Some(
            value,
        ),
{
    lemma_auto_spec_u32_to_from_le_bytes();
    let bytes = prefix + spec_u32_to_le_bytes(value) + suffix;
    assert(bytes.subrange(prefix.len() as int, prefix.len() + 4int) =~= spec_u32_to_le_bytes(value));
}

/// Reading back what was written: the eight bytes that `push_u64` appends
/// read as the same value at the offset where they were appended.
pub proof fn law_push_then_read_u64(prefix: Seq<u8>, suffix: Seq<u8>, value: u64)
    ensures
        spec_read_u64(prefix + spec_u64_to_le_bytes(value) + suffix, prefix.len() as int) == Some(
            value,
        ),
{
    lemma_auto_spec_u64_to_from_le_bytes();
    let bytes = prefix + spec_u64_to_le_bytes(value) + suffix;
    assert(bytes.subrange(prefix.len() as int, prefix.len() + 8int) =~= spec_u64_to_le_bytes(value));
}

/// Reading back what was written: a length-prefixed string appended by
/// `push_bytes` is recovered whole by `SliceReader::read_bytes`, and the
/// cursor lands just past it.
pub proof fn law_push_then_read_bytes(prefix: Seq<u8>, suffix: Seq<u8>, value: Seq<u8>)
    requires
        value.len() <= u32::MAX,
    ensures
        ({
            let bytes = prefix + spec_u32_to_le_bytes(value.len() as u32) + value + suffix;
            let start = prefix.len() as int;
            &&& spec_read_u32(bytes, start) == Some(value.len() as u32)
            &&& start + 4 + value.len() <= bytes.len()
            &&& bytes.subrange(start + 4, start + 4 + value.len()) == value
        }),
{
    lemma_auto_spec_u32_to_from_le_bytes();
    let header = spec_u32_to_le_bytes(value.len() as u32);
    let bytes = prefix + header + value + suffix;
    let start = prefix.len() as int;
    assert(bytes.subrange(start, start + 4) =~= header);
    assert(bytes.subrange(start + 4, start + 4 + value.len()) =~= value);
}

/// Writing in place then reading: after `put_u32` at an offset, the value
/// reads back from that offset and every other byte is unchanged.
pub proof fn law_put_then_read_u32(bytes: Seq<u8>, offset: int, value: u32)
    requires
        0 <= offset,
        offset + 4 <= bytes.len(),
    ensures
        ({
            let written = bytes.subrange(0, offset) + spec_u32_to_le_bytes(value) + bytes.subrange(
                offset + 4,
                bytes.len() as int,
            );
            &&& written.len() == bytes.len()
            &&& spec_read_u32(written, offset) == Some(value)
            &&& forall|k: int|
                0 <= k < bytes.len() && !(offset <= k < offset + 4) ==> #[trigger] written[k]
                    == bytes[k]
        }),
{
    lemma_auto_spec_u32_to_from_le_bytes();
    let written = bytes.subrange(0, offset) + spec_u32_to_le_bytes(value) + bytes.subrange(
        offset + 4,
        bytes.len() as int,
    );
    assert(written.subrange(offset, offset + 4) =~= spec_u32_to_le_bytes(value));
}

} // verus!
