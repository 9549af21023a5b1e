//! Block fingerprinting: the CRC-32 used both as the dedup key during
//! creation and as the integrity check during extraction.

use vstd::prelude::*;

verus! {

/// The IEEE CRC-32 of a byte sequence, as `crc32fast` computes it. The
/// checksum is a function of the bytes alone; nothing further is assumed of
/// its value.
pub uninterp spec fn crc32_of(data: Seq<u8>) -> u32;

/// Relies on crc32fast::hash: the IEEE CRC-32 of the bytes, depending on
/// the bytes alone.
#[verifier::external_body]
pub(crate) fn crc32(data: &Vec<u8>) -> (r: u32)
    ensures
        r == crc32_of(data@),
{
    crc32fast::hash(data.as_slice())
}

} // verus!
