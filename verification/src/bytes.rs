//! Bounds-checked big-endian reads over a byte buffer.

use vstd::prelude::*;
use crate::error::{PathNodeIssue, Region, TvfsError};

verus! {

/// The error reported for a problem found at byte `offset`.
pub open spec fn node_error(offset: int, issue: PathNodeIssue) -> TvfsError {
    TvfsError::InvalidPathNode(offset as usize, issue)
}

/// `start + len`, provided that it fits in a `usize` and does not pass `limit`.
pub open spec fn spec_checked_end(start: int, len: int, limit: int, region: Region) -> Result<usize, TvfsError> {
    if start + len > usize::MAX {
        Err(node_error(start, PathNodeIssue::RangeOverflow(region)))
    } else if start + len > limit {
        Err(node_error(start, PathNodeIssue::RangeExceeds { region, end: (start + len) as usize, limit: limit as usize }))
    } else {
        Ok((start + len) as usize)
    }
}

/// `256` to the power `n`.
pub open spec fn pow256(n: nat) -> nat
    decreases n,
{
    if n == 0 {
        1
    } else {
        256 * pow256((n - 1) as nat)
    }
}

/// The big-endian value of the two bytes at `off`.
pub open spec fn be_u16(d: Seq<u8>, off: int) -> u16 {
    (d[off] * 0x100 + d[off + 1]) as u16
}

/// The big-endian value of the four bytes at `off`.
pub open spec fn be_u32(d: Seq<u8>, off: int) -> u32 {
    (d[off] * 0x100_0000 + d[off + 1] * 0x1_0000 + d[off + 2] * 0x100 + d[off + 3]) as u32
}

/// The big-endian value of a byte string, of any length.
pub open spec fn be_uint(b: Seq<u8>) -> nat
    decreases b.len(),
{
    if b.len() == 0 {
        0
    } else {
        be_uint(b.drop_last()) * 256 + b.last() as nat
    }
}

/// Reading four bytes at `off` of `d`: their value, or the range error.
pub open spec fn spec_read_u32(d: Seq<u8>, off: int) -> Result<u32, TvfsError> {
    match spec_checked_end(off, 4, d.len() as int, Region::U32) {
        Ok(_) => Ok(be_u32(d, off)),
        Err(e) => Err(e),
    }
}

/// Reading two bytes at `off` of `d`: their value, or the range error.
pub open spec fn spec_read_u16(d: Seq<u8>, off: int) -> Result<u16, TvfsError> {
    match spec_checked_end(off, 2, d.len() as int, Region::U16) {
        Ok(_) => Ok(be_u16(d, off)),
        Err(e) => Err(e),
    }
}

/// Number of bytes needed to address any offset below `size` in big-endian form.
pub open spec fn spec_offset_size(size: int) -> int {
    if size == 0 {
        0
    } else if size <= 0xff {
        1
    } else if size <= 0xffff {
        2
    } else if size <= 0xff_ffff {
        3
    } else {
        4
    }
}

/// End of the range `start..start + len`, checked against overflow and against `limit`.
pub fn checked_end(start: usize, len: usize, limit: usize, region: Region) -> (r: Result<usize, TvfsError>)
    ensures
        r == spec_checked_end(start as int, len as int, limit as int, region),
{
    match start.checked_add(len) {
        None => Err(TvfsError::InvalidPathNode(start, PathNodeIssue::RangeOverflow(region))),
        Some(end) => {
            if end > limit {
                Err(TvfsError::InvalidPathNode(start, PathNodeIssue::RangeExceeds { region, end, limit }))
            } else {
                Ok(end)
            }
        },
    }
}

/// Reads a big-endian `u16` at `offset`.
pub fn read_u16_be(data: &[u8], offset: usize) -> (r: Result<u16, TvfsError>)
    ensures
        r == spec_read_u16(data@, offset as int),
{
    let _end = checked_end(offset, 2, data.len(), Region::U16)?;
    Ok((data[offset] as u16) * 0x100 + data[offset + 1] as u16)
}

/// Reads a big-endian `u32` at `offset`.
pub fn read_u32_be(data: &[u8], offset: usize) -> (r: Result<u32, TvfsError>)
    ensures
        r == spec_read_u32(data@, offset as int),
{
    let _end = checked_end(offset, 4, data.len(), Region::U32)?;
    Ok((data[offset] as u32) * 0x100_0000 + (data[offset + 1] as u32) * 0x1_0000
        + (data[offset + 2] as u32) * 0x100 + data[offset + 3] as u32)
}

/// The big-endian value of a byte string is below `256` to the power of its length.
pub proof fn lemma_be_uint_bound(b: Seq<u8>)
    ensures
        be_uint(b) < pow256(b.len()),
    decreases b.len(),
{
    if b.len() > 0 {
        lemma_be_uint_bound(b.drop_last());
    }
}

/// Folds `bytes` into a `u32`, most significant first, shifting earlier bytes
/// out: the big-endian value of `bytes` modulo 2^32 (of all of it when there
/// are at most four bytes).
pub fn read_uint_be(bytes: &[u8]) -> (v: u32)
    ensures
        v == be_uint(bytes@) % 0x1_0000_0000,
{
    let mut value: u32 = 0;
    let mut i: usize = 0;
    while i < bytes.len()
        invariant
            i <= bytes@.len(),
            value == be_uint(bytes@.subrange(0, i as int)) % 0x1_0000_0000,
        decreases bytes@.len() - i,
    {
        let ghost x = be_uint(bytes@.subrange(0, i as int)) as int;
        assert(bytes@.subrange(0, i + 1).drop_last() == bytes@.subrange(0, i as int));
        let b = bytes[i];
        let next = (value << 8) | (b as u32);
        assert(next == ((value as u64 * 256 + b as u64) % 0x1_0000_0000) as u32) by (bit_vector)
            requires
                next == (value << 8) | (b as u32),
        ;
        proof {
            let m = 0x1_0000_0000int;
            vstd::arithmetic::div_mod::lemma_mul_mod_noop_left(x, 256, m);
            vstd::arithmetic::div_mod::lemma_add_mod_noop(x * 256, b as int, m);
            vstd::arithmetic::div_mod::lemma_add_mod_noop((x % m) * 256, b as int, m);
            assert(((x % m) * 256) % m == (x * 256) % m);
            assert(((x % m) * 256 + b) % m == (x * 256 + b) % m);
        }
        value = next;
        i = i + 1;
    }
    assert(bytes@.subrange(0, i as int) == bytes@);
    value
}

/// Number of bytes that address offsets within a table of `size` bytes.
pub fn offset_size(size: usize) -> (n: usize)
    ensures
        n == spec_offset_size(size as int),
{
    if size == 0 {
        0
    } else if size <= 0xff {
        1
    } else if size <= 0xffff {
        2
    } else if size <= 0xff_ffff {
        3
    } else {
        4
    }
}

/// For sizes that fit in a `u32`, `spec_offset_size(size)` is the number of
/// bytes needed to write `size` in big-endian form: the least `n` with
/// `size < 256^n`.
pub proof fn lemma_offset_size_minimal(size: int)
    requires
        0 <= size <= u32::MAX,
    ensures
        size < pow256(spec_offset_size(size) as nat),
        spec_offset_size(size) == 0 || pow256((spec_offset_size(size) - 1) as nat) <= size,
{
    reveal_with_fuel(pow256, 5);
}

} // verus!
