//! The checksum that guards every record and segment block.

use vstd::prelude::*;

verus! {

/// The CRC-32 (IEEE) checksum of a byte string: a pure function of the
/// bytes, computed by an outside crate and therefore left without a body.
pub uninterp spec fn crc32_of(data: Seq<u8>) -> u32;

/// Relies on crc32fast's `hash`: the CRC-32 (IEEE) checksum of the
/// buffer, a function of the bytes alone.
#[verifier::external_body]
pub fn crc32(data: &[u8]) -> (r: u32)
    ensures
        r == crc32_of(data@),
{
    crc32fast::hash(data)
}

} // verus!
