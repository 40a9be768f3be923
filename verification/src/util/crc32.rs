//! Checksums.
//!
//! The checksum of a sequence of bytes is its CRC-32C, the cyclic redundancy
//! check with the polynomial of Castagnoli. Where a checksum is stored next to
//! the bytes it was computed of, it is stored masked: the checksum of bytes
//! that hold checksums would otherwise be the checksum of a checksum.

use vstd::prelude::*;

verus! {

/// What is added to a checksum, after its bits have been turned, to mask it.
pub const MASK_DELTA: u32 = 0xa282ead8;

/// The CRC-32C of `data`.
pub uninterp spec fn crc32c_checksum(data: Seq<u8>) -> u32;

/// Computes the CRC-32C of `data`.
///
/// The body calls `crc::Crc::<u32>::checksum` with the algorithm
/// `crc::CRC_32_ISCSI`. The contract claims no more than that the result is
/// the same for the same bytes.
#[verifier::external_body]
pub(crate) fn checksum(data: &[u8]) -> (sum: u32)
    ensures
        sum == crc32c_checksum(data@),
{
    crc::Crc::<u32>::new(&crc::CRC_32_ISCSI).checksum(data)
}

/// The masked form of the checksum `crc`: its bits turned right by fifteen
/// places, and `MASK_DELTA` added.
pub open spec fn masked(crc: u32) -> u32 {
    ((crc >> 15) | (crc << 17)).wrapping_add(MASK_DELTA)
}

/// The checksum whose masked form is `masked_crc`.
pub open spec fn unmasked(masked_crc: u32) -> u32 {
    let rot = masked_crc.wrapping_sub(MASK_DELTA);
    (rot >> 17) | (rot << 15)
}

/// Unmasking undoes masking, and masking undoes unmasking: no two checksums
/// have one masked form.
pub proof fn lemma_mask_round_trip(crc: u32)
    ensures
        unmasked(masked(crc)) == crc,
        masked(unmasked(crc)) == crc,
{
    let rot = (crc >> 15) | (crc << 17);
    assert(rot.wrapping_add(MASK_DELTA).wrapping_sub(MASK_DELTA) == rot);
    assert(((rot >> 17) | (rot << 15)) == crc) by (bit_vector)
        requires
            rot == (crc >> 15) | (crc << 17),
    ;
    let back = crc.wrapping_sub(MASK_DELTA);
    let turned = (back >> 17) | (back << 15);
    assert(((turned >> 15) | (turned << 17)) == back) by (bit_vector)
        requires
            turned == (back >> 17) | (back << 15),
    ;
    assert(back.wrapping_add(MASK_DELTA) == crc);
}

/// Masks the checksum `crc`.
pub fn mask(crc: u32) -> (masked_crc: u32)
    ensures
        masked_crc == masked(crc),
{
    ((crc >> 15) | (crc << 17)).wrapping_add(MASK_DELTA)
}

/// Returns the checksum whose masked form is `masked_crc`.
pub fn unmask(masked_crc: u32) -> (crc: u32)
    ensures
        crc == unmasked(masked_crc),
{
    let rot: u32 = masked_crc.wrapping_sub(MASK_DELTA);
    (rot >> 17) | (rot << 15)
}

} // verus!
