//! The header of a patch: the format tag, the sizes, and the metadata that
//! is passed over.

use crate::error::PatchError;
use crate::varint::{decodenum, lemma_decode_ignores_later_bytes, spec_decodenum};
use vstd::prelude::*;
use vstd::slice::slice_subrange;

verus! {

/// The four bytes every patch starts with: `BPS1`.
pub open spec fn format_tag() -> Seq<u8> {
    seq![0x42u8, 0x50u8, 0x53u8, 0x31u8]
}

/// What parsing the header of `patch` gives: the declared size of the
/// source, the declared size of the target, and the bytes that follow the
/// header (the instructions and the footer).
///
/// After the tag come three numbers: the two sizes and the length of the
/// metadata. The metadata itself is passed over without being read.
pub open spec fn spec_parse_header(patch: Seq<u8>) -> Result<(u64, u64, Seq<u8>), PatchError> {
    if patch.len() < 4 || patch.subrange(0, 4) != format_tag() {
        Err(PatchError::HeaderError)
    } else {
        match spec_decodenum(patch.skip(4)) {
            None => Err(PatchError::MalformedVarint),
            Some((source_size, after_source)) => match spec_decodenum(after_source) {
                None => Err(PatchError::MalformedVarint),
                Some((target_size, after_target)) => match spec_decodenum(after_target) {
                    None => Err(PatchError::MalformedVarint),
                    Some((metadata_size, after_sizes)) => if metadata_size > i64::MAX {
                        Err(PatchError::MetadataSizeError)
                    } else if metadata_size > after_sizes.len() {
                        Err(PatchError::OutOfBoundsCopy)
                    } else {
                        Ok((source_size, target_size, after_sizes.skip(metadata_size as int)))
                    },
                },
            },
        }
    }
}

/// Checks the format tag of `patch`, reads the declared sizes and passes
/// over the metadata. Returns the source size, the target size and the rest
/// of the patch.
///
/// A patch shorter than its tag fails with `HeaderError`; metadata that is
/// declared longer than what is left of the patch fails with
/// `OutOfBoundsCopy`.
pub fn parse_header(patch: &[u8]) -> (r: Result<(u64, u64, &[u8]), PatchError>)
    ensures
        spec_parse_header(patch@) == (match r {
            Ok((source_size, target_size, rest)) => Ok((source_size, target_size, rest@)),
            Err(e) => Err(e),
        }),
{
    if patch.len() < 4 {
        return Err(PatchError::HeaderError);
    }
    if patch[0] != 0x42 || patch[1] != 0x50 || patch[2] != 0x53 || patch[3] != 0x31 {
        proof {
            let tag = patch@.subrange(0, 4);
            assert(tag[0] == patch@[0] && tag[1] == patch@[1] && tag[2] == patch@[2] && tag[3]
                == patch@[3]);
        }
        return Err(PatchError::HeaderError);
    }
    assert(patch@.subrange(0, 4) =~= format_tag());
    let remaining = slice_subrange(patch, 4, patch.len());
    assert(remaining@ =~= patch@.skip(4));
    let (source_size, remaining): (u64, &[u8]) = match decodenum(remaining) {
        Ok(pair) => pair,
        Err(e) => {
            return Err(e);
        },
    };
    let (target_size, remaining): (u64, &[u8]) = match decodenum(remaining) {
        Ok(pair) => pair,
        Err(e) => {
            return Err(e);
        },
    };
    let (metadata_size, remaining): (u64, &[u8]) = match decodenum(remaining) {
        Ok(pair) => pair,
        Err(e) => {
            return Err(e);
        },
    };
    if metadata_size > 0x7fff_ffff_ffff_ffff {
        return Err(PatchError::MetadataSizeError);
    }
    if metadata_size > remaining.len() as u64 {
        return Err(PatchError::OutOfBoundsCopy);
    }
    let instructions = slice_subrange(remaining, metadata_size as usize, remaining.len());
    assert(instructions@ =~= remaining@.skip(metadata_size as int));
    Ok((source_size, target_size, instructions))
}

/// What follows the header is the end of the patch, byte for byte, and the
/// header takes at least seven bytes: the tag and three numbers.
pub proof fn lemma_header_rest_is_suffix(
    patch: Seq<u8>,
    source_size: u64,
    target_size: u64,
    rest: Seq<u8>,
)
    requires
        spec_parse_header(patch) == Ok::<(u64, u64, Seq<u8>), PatchError>(
            (source_size, target_size, rest),
        ),
    ensures
        rest.len() + 7 <= patch.len(),
        rest == patch.skip(patch.len() - rest.len()),
{
    assert(rest =~= patch.skip(patch.len() - rest.len()));
}

/// Parsing the header looks at no byte behind the header: if a byte of what
/// follows it is replaced, the sizes are the same, and what follows is the
/// same with that byte replaced.
pub proof fn lemma_header_ignores_later_bytes(
    patch: Seq<u8>,
    source_size: u64,
    target_size: u64,
    rest: Seq<u8>,
    index: int,
    byte: u8,
)
    requires
        spec_parse_header(patch) == Ok::<(u64, u64, Seq<u8>), PatchError>(
            (source_size, target_size, rest),
        ),
        patch.len() - rest.len() <= index < patch.len(),
    ensures
        spec_parse_header(patch.update(index, byte)) == Ok::<(u64, u64, Seq<u8>), PatchError>(
            (source_size, target_size, rest.update(index - (patch.len() - rest.len()), byte)),
        ),
{
    let changed = patch.update(index, byte);
    let after_tag = patch.skip(4);
    let after_source = spec_decodenum(after_tag).unwrap().1;
    let after_target = spec_decodenum(after_source).unwrap().1;
    let (metadata_size, after_sizes): (u64, Seq<u8>) = spec_decodenum(after_target).unwrap();
    let at_tag: int = index - 4;
    let at_source: int = at_tag - (after_tag.len() - after_source.len());
    let at_target: int = at_source - (after_source.len() - after_target.len());
    let at_sizes: int = at_target - (after_target.len() - after_sizes.len());
    assert(changed.subrange(0, 4) =~= patch.subrange(0, 4));
    assert(changed.skip(4) =~= after_tag.update(at_tag, byte));
    lemma_decode_ignores_later_bytes(after_tag, source_size, after_source, at_tag, byte);
    lemma_decode_ignores_later_bytes(after_source, target_size, after_target, at_source, byte);
    lemma_decode_ignores_later_bytes(after_target, metadata_size, after_sizes, at_target, byte);
    assert(after_sizes.update(at_sizes, byte).skip(metadata_size as int) =~= rest.update(
        at_sizes - metadata_size,
        byte,
    ));
}

} // verus!
