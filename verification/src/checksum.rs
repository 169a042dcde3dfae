//! The checksum that guards data pages and the metadata file.

use vstd::prelude::*;

verus! {

/// The CRC-32/ISCSI checksum ("CRC32C") of a byte string.
pub uninterp spec fn crc32_iscsi_of(data: Seq<u8>) -> u32;

/// `crc_fast::crc32_iscsi`: the checksum depends on the bytes alone. What it
/// is on given bytes is left to the name.
pub assume_specification[ crc_fast::crc32_iscsi ](data: &[u8]) -> (crc: u32)
    ensures
        crc == crc32_iscsi_of(data@),
;

} // verus!
