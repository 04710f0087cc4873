//! The CRC-32 checksum that GPT uses to protect its header and its
//! partition-entry array.
use vstd::prelude::*;

verus! {

/// The CRC-32 checksum of a byte sequence. Its value is determined by
/// the bytes alone; the algorithm itself lives in the `checksum` crate.
pub uninterp spec fn crc32_of(bytes: Seq<u8>) -> u32;

/// Relies on checksum::crc32::Crc32: `checksum` resets the state, folds
/// in the given bytes and returns the finalized CRC-32, a pure function
/// of the bytes. Its internal byte counter is 32 bits wide, so buffers
/// are capped accordingly.
#[verifier::external_body]
pub(crate) fn crc32(buf: &Vec<u8>) -> (r: u32)
    requires
        buf@.len() <= u32::MAX,
    ensures
        r == crc32_of(buf@),
{
    checksum::crc32::Crc32::new().checksum(buf)
}

} // verus!
