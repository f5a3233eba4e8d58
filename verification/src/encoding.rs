//! Binary encoding and decoding helpers for page data: typed integers at
//! byte offsets, and the arithmetic of packed `f32` arrays.

use vstd::prelude::*;
use crate::bytes::{get_u32, get_u64, le_u32, le_u64, put_u32, put_u64, splice, u32_of_le, u64_of_le};

verus! {

/// Size in bytes of one packed `f32`.
pub const F32_SIZE: usize = 4;

/// Writes `value` in little-endian byte order at `offset`.
pub fn write_u32_le(buf: &mut [u8], offset: usize, value: u32)
    requires
        offset + 4 <= old(buf).len(),
    ensures
        final(buf)@ == splice(old(buf)@, offset as int, le_u32(value)),
{
    put_u32(buf, offset, value);
}

/// Reads the little-endian `u32` at `offset`, or `None` when the buffer
/// holds fewer than four bytes from there.
pub fn read_u32_le(buf: &[u8], offset: usize) -> (r: Option<u32>)
    requires
        offset + 4 <= usize::MAX,
    ensures
        offset + 4 > buf@.len() ==> r is None,
        offset + 4 <= buf@.len() ==> r == Some(u32_of_le(buf@.subrange(offset as int, offset + 4))),
{
    if offset + 4 > buf.len() {
        return None;
    }
    Some(get_u32(buf, offset))
}

/// Writes `value` in little-endian byte order at `offset`.
pub fn write_u64_le(buf: &mut [u8], offset: usize, value: u64)
    requires
        offset + 8 <= old(buf).len(),
    ensures
        final(buf)@ == splice(old(buf)@, offset as int, le_u64(value)),
{
    put_u64(buf, offset, value);
}

/// Reads the little-endian `u64` at `offset`, or `None` when the buffer
/// holds fewer than eight bytes from there.
pub fn read_u64_le(buf: &[u8], offset: usize) -> (r: Option<u64>)
    requires
        offset + 8 <= usize::MAX,
    ensures
        offset + 8 > buf@.len() ==> r is None,
        offset + 8 <= buf@.len() ==> r == Some(u64_of_le(buf@.subrange(offset as int, offset + 8))),
{
    if offset + 8 > buf.len() {
        return None;
    }
    Some(get_u64(buf, offset))
}

/// How many `f32` values fit in `available` bytes.
pub fn f32_count_from_bytes(available: usize) -> (r: usize)
    ensures
        r == available / 4,
{
    available / F32_SIZE
}

/// How many bytes `count` packed `f32` values take.
pub fn bytes_for_f32(count: usize) -> (r: usize)
    requires
        count * 4 <= usize::MAX,
    ensures
        r == count * 4,
{
    count * F32_SIZE
}

/// A `u32` written at an offset reads back unchanged from that offset.
pub proof fn lemma_u32_write_read(buf: Seq<u8>, offset: int, value: u32)
    requires
        0 <= offset,
        offset + 4 <= buf.len(),
    ensures
        splice(buf, offset, le_u32(value)).len() == buf.len(),
        u32_of_le(splice(buf, offset, le_u32(value)).subrange(offset, offset + 4)) == value,
{
    crate::bytes::lemma_u32_roundtrip(value);
    assert(splice(buf, offset, le_u32(value)).subrange(offset, offset + 4) =~= le_u32(value));
}

/// A `u64` written at an offset reads back unchanged from that offset.
pub proof fn lemma_u64_write_read(buf: Seq<u8>, offset: int, value: u64)
    requires
        0 <= offset,
        offset + 8 <= buf.len(),
    ensures
        splice(buf, offset, le_u64(value)).len() == buf.len(),
        u64_of_le(splice(buf, offset, le_u64(value)).subrange(offset, offset + 8)) == value,
{
    crate::bytes::lemma_u64_roundtrip(value);
    assert(splice(buf, offset, le_u64(value)).subrange(offset, offset + 8) =~= le_u64(value));
}

} // verus!
