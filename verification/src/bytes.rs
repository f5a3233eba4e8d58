//! Little-endian byte images of fixed-width integers, and the slice
//! primitives that read and write them in place.

use vstd::prelude::*;

verus! {

/// `s` with the bytes starting at `off` replaced by `bytes`.
pub open spec fn splice(s: Seq<u8>, off: int, bytes: Seq<u8>) -> Seq<u8> {
    s.take(off) + bytes + s.skip(off + bytes.len())
}

/// Little-endian image of a `u16`.
pub open spec fn le_u16(x: u16) -> Seq<u8> {
    seq![(x & 0xff) as u8, ((x >> 8u16) & 0xff) as u8]
}

/// Little-endian image of a `u32`.
pub open spec fn le_u32(x: u32) -> Seq<u8> {
    seq![
        (x & 0xff) as u8,
        ((x >> 8u32) & 0xff) as u8,
        ((x >> 16u32) & 0xff) as u8,
        ((x >> 24u32) & 0xff) as u8,
    ]
}

/// Little-endian image of a `u64`.
pub open spec fn le_u64(x: u64) -> Seq<u8> {
    seq![
        (x & 0xff) as u8,
        ((x >> 8u64) & 0xff) as u8,
        ((x >> 16u64) & 0xff) as u8,
        ((x >> 24u64) & 0xff) as u8,
        ((x >> 32u64) & 0xff) as u8,
        ((x >> 40u64) & 0xff) as u8,
        ((x >> 48u64) & 0xff) as u8,
        ((x >> 56u64) & 0xff) as u8,
    ]
}

/// The `u16` whose little-endian image is the first two bytes of `b`.
pub open spec fn u16_of_le(b: Seq<u8>) -> u16 {
    (b[0] as u16) | ((b[1] as u16) << 8u16)
}

/// The `u32` whose little-endian image is the first four bytes of `b`.
pub open spec fn u32_of_le(b: Seq<u8>) -> u32 {
    (b[0] as u32) | ((b[1] as u32) << 8u32) | ((b[2] as u32) << 16u32) | ((b[3] as u32) << 24u32)
}

/// The `u64` whose little-endian image is the first eight bytes of `b`.
pub open spec fn u64_of_le(b: Seq<u8>) -> u64 {
    (b[0] as u64) | ((b[1] as u64) << 8u64) | ((b[2] as u64) << 16u64) | ((b[3] as u64) << 24u64)
        | ((b[4] as u64) << 32u64) | ((b[5] as u64) << 40u64) | ((b[6] as u64) << 48u64)
        | ((b[7] as u64) << 56u64)
}

/// Decoding the image of a `u16` gives the value back.
pub proof fn lemma_u16_roundtrip(x: u16)
    ensures
        le_u16(x).len() == 2,
        u16_of_le(le_u16(x)) == x,
{
    let b0 = (x & 0xff) as u8;
    let b1 = ((x >> 8u16) & 0xff) as u8;
    assert(((b0 as u16) | ((b1 as u16) << 8u16)) == x) by (bit_vector)
        requires
            b0 == (x & 0xff) as u8,
            b1 == ((x >> 8u16) & 0xff) as u8,
    ;
}

/// Encoding the value decoded from two bytes gives those bytes back.
pub proof fn lemma_u16_bytes_roundtrip(b: Seq<u8>)
    requires
        b.len() == 2,
    ensures
        le_u16(u16_of_le(b)) == b,
{
    let b0 = b[0];
    let b1 = b[1];
    let v = u16_of_le(b);
    assert((v & 0xff) as u8 == b0 && ((v >> 8u16) & 0xff) as u8 == b1) by (bit_vector)
        requires
            v == (b0 as u16) | ((b1 as u16) << 8u16),
    ;
    assert(le_u16(v) =~= b);
}

/// Decoding the image of a `u32` gives the value back.
pub proof fn lemma_u32_roundtrip(x: u32)
    ensures
        le_u32(x).len() == 4,
        u32_of_le(le_u32(x)) == x,
{
    let b0 = (x & 0xff) as u8;
    let b1 = ((x >> 8u32) & 0xff) as u8;
    let b2 = ((x >> 16u32) & 0xff) as u8;
    let b3 = ((x >> 24u32) & 0xff) as u8;
    assert(((b0 as u32) | ((b1 as u32) << 8u32) | ((b2 as u32) << 16u32) | ((b3 as u32) << 24u32))
        == x) by (bit_vector)
        requires
            b0 == (x & 0xff) as u8,
            b1 == ((x >> 8u32) & 0xff) as u8,
            b2 == ((x >> 16u32) & 0xff) as u8,
            b3 == ((x >> 24u32) & 0xff) as u8,
    ;
}

/// Encoding the value decoded from four bytes gives those bytes back.
pub proof fn lemma_u32_bytes_roundtrip(b: Seq<u8>)
    requires
        b.len() == 4,
    ensures
        le_u32(u32_of_le(b)) == b,
{
    let b0 = b[0];
    let b1 = b[1];
    let b2 = b[2];
    let b3 = b[3];
    let v = u32_of_le(b);
    assert((v & 0xff) as u8 == b0 && ((v >> 8u32) & 0xff) as u8 == b1 && ((v >> 16u32) & 0xff) as u8
        == b2 && ((v >> 24u32) & 0xff) as u8 == b3) by (bit_vector)
        requires
            v == (b0 as u32) | ((b1 as u32) << 8u32) | ((b2 as u32) << 16u32) | ((b3 as u32)
                << 24u32),
    ;
    assert(le_u32(v) =~= b);
}

/// Decoding the image of a `u64` gives the value back.
pub proof fn lemma_u64_roundtrip(x: u64)
    ensures
        le_u64(x).len() == 8,
        u64_of_le(le_u64(x)) == x,
{
    let b0 = (x & 0xff) as u8;
    let b1 = ((x >> 8u64) & 0xff) as u8;
    let b2 = ((x >> 16u64) & 0xff) as u8;
    let b3 = ((x >> 24u64) & 0xff) as u8;
    let b4 = ((x >> 32u64) & 0xff) as u8;
    let b5 = ((x >> 40u64) & 0xff) as u8;
    let b6 = ((x >> 48u64) & 0xff) as u8;
    let b7 = ((x >> 56u64) & 0xff) as u8;
    assert(((b0 as u64) | ((b1 as u64) << 8u64) | ((b2 as u64) << 16u64) | ((b3 as u64) << 24u64)
        | ((b4 as u64) << 32u64) | ((b5 as u64) << 40u64) | ((b6 as u64) << 48u64) | ((b7 as u64)
        << 56u64)) == x) by (bit_vector)
        requires
            b0 == (x & 0xff) as u8,
            b1 == ((x >> 8u64) & 0xff) as u8,
            b2 == ((x >> 16u64) & 0xff) as u8,
            b3 == ((x >> 24u64) & 0xff) as u8,
            b4 == ((x >> 32u64) & 0xff) as u8,
            b5 == ((x >> 40u64) & 0xff) as u8,
            b6 == ((x >> 48u64) & 0xff) as u8,
            b7 == ((x >> 56u64) & 0xff) as u8,
    ;
}

/// Encoding the value decoded from eight bytes gives those bytes back.
pub proof fn lemma_u64_bytes_roundtrip(b: Seq<u8>)
    requires
        b.len() == 8,
    ensures
        le_u64(u64_of_le(b)) == b,
{
    let b0 = b[0];
    let b1 = b[1];
    let b2 = b[2];
    let b3 = b[3];
    let b4 = b[4];
    let b5 = b[5];
    let b6 = b[6];
    let b7 = b[7];
    let v = u64_of_le(b);
    assert((v & 0xff) as u8 == b0 && ((v >> 8u64) & 0xff) as u8 == b1 && ((v >> 16u64) & 0xff) as u8
        == b2 && ((v >> 24u64) & 0xff) as u8 == b3 && ((v >> 32u64) & 0xff) as u8 == b4 && ((v
        >> 40u64) & 0xff) as u8 == b5 && ((v >> 48u64) & 0xff) as u8 == b6 && ((v >> 56u64) & 0xff)
        as u8 == b7) by (bit_vector)
        requires
            v == (b0 as u64) | ((b1 as u64) << 8u64) | ((b2 as u64) << 16u64) | ((b3 as u64)
                << 24u64) | ((b4 as u64) << 32u64) | ((b5 as u64) << 40u64) | ((b6 as u64)
                << 48u64) | ((b7 as u64) << 56u64),
    ;
    assert(le_u64(v) =~= b);
}

/// Writes the little-endian image of `x` at `off`.
pub fn put_u16(buf: &mut [u8], off: usize, x: u16)
    requires
        off + 2 <= old(buf).len(),
    ensures
        final(buf)@ == splice(old(buf)@, off as int, le_u16(x)),
{
    buf[off] = (x & 0xff) as u8;
    buf[off + 1] = ((x >> 8u16) & 0xff) as u8;
    assert(buf@ =~= splice(old(buf)@, off as int, le_u16(x)));
}

/// Writes the little-endian image of `x` at `off`.
pub fn put_u32(buf: &mut [u8], off: usize, x: u32)
    requires
        off + 4 <= old(buf).len(),
    ensures
        final(buf)@ == splice(old(buf)@, off as int, le_u32(x)),
{
    buf[off] = (x & 0xff) as u8;
    buf[off + 1] = ((x >> 8u32) & 0xff) as u8;
    buf[off + 2] = ((x >> 16u32) & 0xff) as u8;
    buf[off + 3] = ((x >> 24u32) & 0xff) as u8;
    assert(buf@ =~= splice(old(buf)@, off as int, le_u32(x)));
}

/// Writes the little-endian image of `x` at `off`.
pub fn put_u64(buf: &mut [u8], off: usize, x: u64)
    requires
        off + 8 <= old(buf).len(),
    ensures
        final(buf)@ == splice(old(buf)@, off as int, le_u64(x)),
{
    buf[off] = (x & 0xff) as u8;
    buf[off + 1] = ((x >> 8u64) & 0xff) as u8;
    buf[off + 2] = ((x >> 16u64) & 0xff) as u8;
    buf[off + 3] = ((x >> 24u64) & 0xff) as u8;
    buf[off + 4] = ((x >> 32u64) & 0xff) as u8;
    buf[off + 5] = ((x >> 40u64) & 0xff) as u8;
    buf[off + 6] = ((x >> 48u64) & 0xff) as u8;
    buf[off + 7] = ((x >> 56u64) & 0xff) as u8;
    assert(buf@ =~= splice(old(buf)@, off as int, le_u64(x)));
}

/// Reads the `u16` stored little-endian at `off`.
pub fn get_u16(buf: &[u8], off: usize) -> (r: u16)
    requires
        off + 2 <= buf.len(),
    ensures
        r == u16_of_le(buf@.subrange(off as int, off + 2)),
{
    (buf[off] as u16) | ((buf[off + 1] as u16) << 8u16)
}

/// Reads the `u32` stored little-endian at `off`.
pub fn get_u32(buf: &[u8], off: usize) -> (r: u32)
    requires
        off + 4 <= buf.len(),
    ensures
        r == u32_of_le(buf@.subrange(off as int, off + 4)),
{
    (buf[off] as u32) | ((buf[off + 1] as u32) << 8u32) | ((buf[off + 2] as u32) << 16u32) | ((
    buf[off + 3] as u32) << 24u32)
}

/// Reads the `u64` stored little-endian at `off`.
pub fn get_u64(buf: &[u8], off: usize) -> (r: u64)
    requires
        off + 8 <= buf.len(),
    ensures
        r == u64_of_le(buf@.subrange(off as int, off + 8)),
{
    (buf[off] as u64) | ((buf[off + 1] as u64) << 8u64) | ((buf[off + 2] as u64) << 16u64) | ((
    buf[off + 3] as u64) << 24u64) | ((buf[off + 4] as u64) << 32u64) | ((buf[off + 5] as u64)
        << 40u64) | ((buf[off + 6] as u64) << 48u64) | ((buf[off + 7] as u64) << 56u64)
}

} // verus!
