//! CRC-32 checksums, computed by `crc32fast`.

use vstd::prelude::*;

verus! {

/// The CRC-32 (IEEE 802.3) checksum of `bytes`, as `crc32fast` computes it.
/// It depends on the bytes alone.
pub uninterp spec fn crc32(bytes: Seq<u8>) -> u32;

/// Calls `crc32fast::hash`, which returns the CRC-32 checksum of `buf`.
/// The contract only names that result `crc32(buf@)`: the checksum
/// algorithm itself is not restated.
#[verifier::external_body]
pub(crate) fn crc32_hash(buf: &[u8]) -> (r: u32)
    ensures
        r == crc32(buf@),
{
    crc32fast::hash(buf)
}

} // verus!
