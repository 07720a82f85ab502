//! The three CRC-32 checksums in the footer of a patch.

use crate::error::{ChecksumKind, PatchError};
use vstd::prelude::*;
use vstd::slice::slice_subrange;

verus! {

/// The CRC-32 checksum of `bytes` with the IEEE 802.3 polynomial, as
/// `crc::crc32::checksum_ieee` computes it. Contracts name this value and
/// say nothing of what it is on any given bytes.
pub uninterp spec fn crc32_ieee(bytes: Seq<u8>) -> u32;

/// Calls `crc::crc32::checksum_ieee`. Not proved: that the result is the
/// checksum of exactly these bytes and depends on nothing else. The outside
/// function starts from a fixed value, takes the bytes in order through a
/// constant table of 256 entries, and has no way to fail.
#[verifier::external_body]
pub(crate) fn checksum_ieee(bytes: &[u8]) -> (sum: u32)
    ensures
        sum == crc32_ieee(bytes@),
{
    crc::crc32::checksum_ieee(bytes)
}

/// The 32-bit number that the first four bytes of `bytes` hold, least
/// significant byte first.
pub open spec fn spec_le_u32(bytes: Seq<u8>) -> u32 {
    (bytes[0] + 0x100 * bytes[1] + 0x1_0000 * bytes[2] + 0x100_0000 * bytes[3]) as u32
}

/// A stored checksum and the computed one it should have been equal to.
#[derive(Clone, Copy, Debug, PartialEq, Eq, Structural)]
pub struct CrcMismatch {
    /// The checksum that the patch holds.
    pub expected: u32,
    /// The checksum of the data.
    pub actual: u32,
}

/// The checksum that the footer byte at `offset` belongs to: four bytes for
/// the source, four for the target, four for the patch.
pub open spec fn footer_field(offset: int) -> ChecksumKind {
    if offset < 4 {
        ChecksumKind::Source
    } else if offset < 8 {
        ChecksumKind::Target
    } else {
        ChecksumKind::Patch
    }
}

/// What checking a footer against the three computed checksums gives: the
/// first stored checksum that differs from its computed one is named.
pub open spec fn spec_verify_footer(
    footer: Seq<u8>,
    source_crc: u32,
    target_crc: u32,
    patch_crc: u32,
) -> Result<(), PatchError> {
    if spec_le_u32(footer.subrange(0, 4)) != source_crc {
        Err(PatchError::ChecksumMismatch(ChecksumKind::Source))
    } else if spec_le_u32(footer.subrange(4, 8)) != target_crc {
        Err(PatchError::ChecksumMismatch(ChecksumKind::Target))
    } else if spec_le_u32(footer.subrange(8, 12)) != patch_crc {
        Err(PatchError::ChecksumMismatch(ChecksumKind::Patch))
    } else {
        Ok(())
    }
}

/// Compares the checksum stored in the first four bytes of `expected`, least
/// significant byte first, with `actual`.
pub fn verify_crc32(expected: &[u8], actual: u32) -> (r: Result<(), CrcMismatch>)
    requires
        expected@.len() >= 4,
    ensures
        r is Ok <==> spec_le_u32(expected@) == actual,
        r matches Err(e) ==> e.expected == spec_le_u32(expected@) && e.actual == actual,
{
    let e0: u32 = expected[0] as u32;
    let e1: u32 = expected[1] as u32;
    let e2: u32 = expected[2] as u32;
    let e3: u32 = expected[3] as u32;
    let stored: u32 = e0 | e1 << 8 | e2 << 16 | e3 << 24;
    proof {
        assert(e0 | e1 << 8 | e2 << 16 | e3 << 24 == e0 + 0x100 * e1 + 0x1_0000 * e2 + 0x100_0000
            * e3) by (bit_vector)
            requires
                e0 < 0x100,
                e1 < 0x100,
                e2 < 0x100,
                e3 < 0x100,
        ;
    }
    if stored != actual {
        Err(CrcMismatch { expected: stored, actual })
    } else {
        Ok(())
    }
}

/// Checks the 12-byte footer of a patch against the checksums computed from
/// the source, the target and the patch. The stored checksums are compared
/// in that order, and the first that differs decides the error.
pub fn verify_footer(footer: &[u8], source_crc: u32, target_crc: u32, patch_crc: u32) -> (r:
    Result<(), PatchError>)
    requires
        footer@.len() == 12,
    ensures
        r == spec_verify_footer(footer@, source_crc, target_crc, patch_crc),
{
    if verify_crc32(slice_subrange(footer, 0, 4), source_crc).is_err() {
        return Err(PatchError::ChecksumMismatch(ChecksumKind::Source));
    }
    if verify_crc32(slice_subrange(footer, 4, 8), target_crc).is_err() {
        return Err(PatchError::ChecksumMismatch(ChecksumKind::Target));
    }
    if verify_crc32(slice_subrange(footer, 8, 12), patch_crc).is_err() {
        return Err(PatchError::ChecksumMismatch(ChecksumKind::Patch));
    }
    Ok(())
}

/// Four bytes that differ from four others in one place hold a different
/// number.
pub proof fn lemma_stored_checksum_changes(bytes: Seq<u8>, index: int, byte: u8)
    requires
        bytes.len() == 4,
        0 <= index < 4,
        byte != bytes[index],
    ensures
        spec_le_u32(bytes.update(index, byte)) != spec_le_u32(bytes),
{
}

/// A footer that agrees with the three checksums no longer does once one of
/// its bytes is replaced by another value: the checksum that the byte
/// belongs to is named. For a byte of the first two checksums this holds
/// whatever the checksum of the patch has become by the change.
pub proof fn lemma_changed_footer_fails(
    footer: Seq<u8>,
    source_crc: u32,
    target_crc: u32,
    patch_crc: u32,
    changed_patch_crc: u32,
    offset: int,
    byte: u8,
)
    requires
        footer.len() == 12,
        spec_verify_footer(footer, source_crc, target_crc, patch_crc) is Ok,
        0 <= offset < 12,
        byte != footer[offset],
        offset >= 8 ==> changed_patch_crc == patch_crc,
    ensures
        spec_verify_footer(footer.update(offset, byte), source_crc, target_crc, changed_patch_crc)
            == Err::<(), PatchError>(PatchError::ChecksumMismatch(footer_field(offset))),
{
    let changed = footer.update(offset, byte);
    if offset < 4 {
        lemma_stored_checksum_changes(footer.subrange(0, 4), offset, byte);
        assert(changed.subrange(0, 4) =~= footer.subrange(0, 4).update(offset, byte));
    } else if offset < 8 {
        lemma_stored_checksum_changes(footer.subrange(4, 8), offset - 4, byte);
        assert(changed.subrange(0, 4) =~= footer.subrange(0, 4));
        assert(changed.subrange(4, 8) =~= footer.subrange(4, 8).update(offset - 4, byte));
    } else {
        lemma_stored_checksum_changes(footer.subrange(8, 12), offset - 8, byte);
        assert(changed.subrange(0, 4) =~= footer.subrange(0, 4));
        assert(changed.subrange(4, 8) =~= footer.subrange(4, 8));
        assert(changed.subrange(8, 12) =~= footer.subrange(8, 12).update(offset - 8, byte));
    }
}

} // verus!
