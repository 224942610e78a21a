//! The integrity check carried by every frame.

use vstd::prelude::*;

verus! {

/// The CRC-32/CKSUM checksum of a byte sequence.
pub uninterp spec fn crc32_cksum(bytes: Seq<u8>) -> u32;

/// Relies on `crc::Crc::<u32>::checksum` with the `CRC_32_CKSUM` parameters:
/// the result depends on the bytes alone.
#[verifier::external_body]
pub(crate) fn checksum(bytes: &[u8]) -> (r: u32)
    ensures
        r == crc32_cksum(bytes@),
{
    ::crc::Crc::<u32>::new(&::crc::CRC_32_CKSUM).checksum(bytes)
}

} // verus!
