//! CRC-32 checksums, computed by the `crc32fast` crate.

use vstd::prelude::*;

verus! {

/// The CRC-32 (IEEE) checksum of a byte sequence.
pub uninterp spec fn spec_crc32(data: Seq<u8>) -> u32;

/// `crc32fast::hash`: the CRC-32 (IEEE) checksum of `data`.
///
/// Contract: the result is the checksum of exactly the bytes of `data`
/// (named `spec_crc32`); the checksum algorithm itself is not restated here.
#[verifier::external_body]
pub(crate) fn crc32(data: &[u8]) -> (r: u32)
    ensures
        r == spec_crc32(data@),
{
    crc32fast::hash(data)
}

} // verus!
