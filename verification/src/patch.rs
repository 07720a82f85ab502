//! Applying a whole patch: header, instructions, checksums.

use crate::checksum::{
    checksum_ieee, crc32_ieee, footer_field, lemma_changed_footer_fails, spec_le_u32,
    spec_verify_footer, verify_footer,
};
use crate::error::PatchError;
use crate::executor::{
    initial_state, lemma_run_hands_back_the_end, lemma_run_ignores_footer,
    lemma_wrong_remainder_is_truncated, spec_loop, spec_run, Executor, ExecutorState,
    FOOTER_LEN,
};
use crate::header::{
    format_tag, lemma_header_ignores_later_bytes, lemma_header_rest_is_suffix, parse_header,
    spec_parse_header,
};
use vstd::prelude::*;
use vstd::slice::slice_subrange;

verus! {

/// What applying `patch` to `source` gives: the target, or the first thing
/// that is wrong.
///
/// The header is parsed, the source must have the length the header
/// declares, the instructions are carried out, and the three checksums of
/// the footer are compared with those of the source, of the target that was
/// built, and of the patch without its last four bytes.
///
/// The target size that the header declares is not compared with the length
/// of the target that the instructions build: a patch whose checksums agree
/// is accepted whatever size it declares.
pub open spec fn spec_apply_patch(patch: Seq<u8>, source: Seq<u8>) -> Result<Seq<u8>, PatchError> {
    match spec_parse_header(patch) {
        Err(e) => Err(e),
        Ok((source_size, target_size, instructions)) => if source_size != source.len() {
            Err(PatchError::SourceSizeMismatch)
        } else {
            match spec_run(initial_state(), source, instructions) {
                Err(e) => Err(e),
                Ok((last, footer)) => match spec_verify_footer(
                    footer,
                    crc32_ieee(source),
                    crc32_ieee(last.target),
                    crc32_ieee(patch.subrange(0, patch.len() - 4)),
                ) {
                    Err(e) => Err(e),
                    Ok(_) => Ok(last.target),
                },
            }
        },
    }
}

/// Rebuilds the target from `src` and `patch`. Returns it only if the patch
/// is well formed, fits the source and all three checksums agree.
///
/// The first thing found wrong decides the error, in this order: the header
/// (`HeaderError`, `MalformedVarint`, `MetadataSizeError`,
/// `OutOfBoundsCopy`), the length of the source (`SourceSizeMismatch`), the
/// instructions one after the other (`MalformedVarint`, `OutOfBoundsCopy`),
/// the place where they end (`TruncatedPatchError`), and the checksums of
/// the source, the target and the patch (`ChecksumMismatch`).
pub fn apply_patch(patch: &[u8], src: &[u8]) -> (r: Result<Vec<u8>, PatchError>)
    ensures
        spec_apply_patch(patch@, src@) == (match r {
            Ok(target) => Ok(target@),
            Err(e) => Err(e),
        }),
{
    let (source_size, target_size, instructions): (u64, u64, &[u8]) = match parse_header(patch) {
        Ok(header) => header,
        Err(e) => {
            return Err(e);
        },
    };
    if source_size != src.len() as u64 {
        return Err(PatchError::SourceSizeMismatch);
    }
    let (last, footer) = match Executor::new(target_size).run(src, instructions) {
        Ok(pair) => pair,
        Err(e) => {
            return Err(e);
        },
    };
    let source_crc: u32 = checksum_ieee(src);
    let target_crc: u32 = checksum_ieee(last.target.as_slice());
    let patch_crc: u32 = checksum_ieee(slice_subrange(patch, 0, patch.len() - 4));
    match verify_footer(footer, source_crc, target_crc, patch_crc) {
        Ok(_) => Ok(last.target),
        Err(e) => Err(e),
    }
}

/// A patch that does not start with the four bytes `BPS1` fails with
/// `HeaderError`, whatever else it holds and whatever the source is.
pub proof fn lemma_wrong_tag_is_header_error(patch: Seq<u8>, source: Seq<u8>)
    requires
        patch.len() < 4 || patch.subrange(0, 4) != format_tag(),
    ensures
        spec_apply_patch(patch, source) == Err::<Seq<u8>, PatchError>(PatchError::HeaderError),
{
}

/// A source whose length is not the one that the header declares fails
/// with `SourceSizeMismatch`, before any instruction is looked at.
pub proof fn lemma_wrong_source_length_is_mismatch(patch: Seq<u8>, source: Seq<u8>)
    requires
        spec_parse_header(patch) matches Ok(header) && header.0 != source.len(),
    ensures
        spec_apply_patch(patch, source) == Err::<Seq<u8>, PatchError>(
            PatchError::SourceSizeMismatch,
        ),
{
}

/// A patch with a good header and a fitting source, whose instructions run
/// without error but do not stop with exactly twelve bytes left, fails with
/// `TruncatedPatchError`.
pub proof fn lemma_wrong_remainder_is_truncated_patch(patch: Seq<u8>, source: Seq<u8>)
    requires
        spec_parse_header(patch) matches Ok(header) && header.0 == source.len() && (spec_loop(
            initial_state(),
            source,
            header.2,
        ) matches Ok(stopped) && stopped.1.len() != FOOTER_LEN),
    ensures
        spec_apply_patch(patch, source) == Err::<Seq<u8>, PatchError>(
            PatchError::TruncatedPatchError,
        ),
{
    let header = spec_parse_header(patch)->Ok_0;
    lemma_wrong_remainder_is_truncated(initial_state(), source, header.2);
}

/// A patch that applies ends in its footer: the twelve bytes against which
/// the checksums are compared are the last twelve bytes of the patch, and
/// they agree with the checksums of the source, of the target and of the
/// patch without its last four bytes.
pub proof fn lemma_applied_patch_has_matching_footer(
    patch: Seq<u8>,
    source: Seq<u8>,
    target: Seq<u8>,
)
    requires
        spec_apply_patch(patch, source) == Ok::<Seq<u8>, PatchError>(target),
    ensures
        patch.len() >= 7 + FOOTER_LEN,
        spec_le_u32(patch.subrange(patch.len() - 12, patch.len() - 8)) == crc32_ieee(source),
        spec_le_u32(patch.subrange(patch.len() - 8, patch.len() - 4)) == crc32_ieee(target),
        spec_le_u32(patch.subrange(patch.len() - 4, patch.len() as int)) == crc32_ieee(
            patch.subrange(0, patch.len() - 4),
        ),
{
    let (source_size, target_size, instructions): (u64, u64, Seq<u8>) = spec_parse_header(
        patch,
    )->Ok_0;
    let (last, footer) = spec_run(initial_state(), source, instructions)->Ok_0;
    lemma_header_rest_is_suffix(patch, source_size, target_size, instructions);
    lemma_run_hands_back_the_end(initial_state(), source, instructions, last, footer);
    assert(footer =~= patch.skip(patch.len() - 12));
    assert(footer.subrange(0, 4) =~= patch.subrange(patch.len() - 12, patch.len() - 8));
    assert(footer.subrange(4, 8) =~= patch.subrange(patch.len() - 8, patch.len() - 4));
    assert(footer.subrange(8, 12) =~= patch.subrange(patch.len() - 4, patch.len() as int));
}

proof fn lemma_changed_footer_runs_alike(
    patch: Seq<u8>,
    source: Seq<u8>,
    source_size: u64,
    target_size: u64,
    instructions: Seq<u8>,
    last: ExecutorState,
    footer: Seq<u8>,
    index: int,
    byte: u8,
)
    requires
        spec_parse_header(patch) == Ok::<(u64, u64, Seq<u8>), PatchError>(
            (source_size, target_size, instructions),
        ),
        spec_run(initial_state(), source, instructions) == Ok::<
            (ExecutorState, Seq<u8>),
            PatchError,
        >((last, footer)),
        patch.len() - FOOTER_LEN <= index < patch.len(),
    ensures
        footer.len() == FOOTER_LEN,
        footer[index - (patch.len() - FOOTER_LEN)] == patch[index],
        spec_parse_header(patch.update(index, byte)) matches Ok(changed) && changed.0
            == source_size && spec_run(initial_state(), source, changed.2) == Ok::<
            (ExecutorState, Seq<u8>),
            PatchError,
        >((last, footer.update(index - (patch.len() - FOOTER_LEN), byte))),
{
    let used: int = patch.len() - instructions.len();
    lemma_header_rest_is_suffix(patch, source_size, target_size, instructions);
    lemma_run_hands_back_the_end(initial_state(), source, instructions, last, footer);
    lemma_header_ignores_later_bytes(patch, source_size, target_size, instructions, index, byte);
    lemma_run_ignores_footer(
        initial_state(),
        source,
        instructions,
        last,
        footer,
        index - used,
        byte,
    );
}

/// If any one of the last twelve bytes of a patch that applies is replaced
/// by another value, the patch fails with `ChecksumMismatch`, and the
/// checksum named is the one that the byte belongs to.
pub proof fn lemma_changed_footer_byte_is_mismatch(
    patch: Seq<u8>,
    source: Seq<u8>,
    index: int,
    byte: u8,
)
    requires
        spec_apply_patch(patch, source) is Ok,
        patch.len() - FOOTER_LEN <= index < patch.len(),
        byte != patch[index],
    ensures
        spec_apply_patch(patch.update(index, byte), source) == Err::<Seq<u8>, PatchError>(
            PatchError::ChecksumMismatch(footer_field(index - (patch.len() - FOOTER_LEN))),
        ),
{
    let changed = patch.update(index, byte);
    let (source_size, target_size, instructions): (u64, u64, Seq<u8>) = spec_parse_header(
        patch,
    )->Ok_0;
    let (last, footer) = spec_run(initial_state(), source, instructions)->Ok_0;
    let offset: int = index - (patch.len() - FOOTER_LEN);
    lemma_changed_footer_runs_alike(
        patch,
        source,
        source_size,
        target_size,
        instructions,
        last,
        footer,
        index,
        byte,
    );
    if offset >= 8 {
        assert(changed.subrange(0, changed.len() - 4) =~= patch.subrange(0, patch.len() - 4));
    }
    lemma_changed_footer_fails(
        footer,
        crc32_ieee(source),
        crc32_ieee(last.target),
        crc32_ieee(patch.subrange(0, patch.len() - 4)),
        crc32_ieee(changed.subrange(0, changed.len() - 4)),
        offset,
        byte,
    );
}

/// If any single bit of the last twelve bytes of a patch that applies is
/// flipped, the patch fails with `ChecksumMismatch`, and the checksum named
/// is the one that the bit belongs to.
pub proof fn lemma_flipped_footer_bit_is_mismatch(
    patch: Seq<u8>,
    source: Seq<u8>,
    index: int,
    bit: u8,
)
    requires
        spec_apply_patch(patch, source) is Ok,
        patch.len() - FOOTER_LEN <= index < patch.len(),
        bit < 8,
    ensures
        spec_apply_patch(patch.update(index, patch[index] ^ (1u8 << bit)), source) == Err::<
            Seq<u8>,
            PatchError,
        >(PatchError::ChecksumMismatch(footer_field(index - (patch.len() - FOOTER_LEN)))),
{
    let old_byte: u8 = patch[index];
    assert(old_byte ^ (1u8 << bit) != old_byte) by (bit_vector)
        requires
            bit < 8,
    ;
    lemma_changed_footer_byte_is_mismatch(patch, source, index, old_byte ^ (1u8 << bit));
}

} // verus!
