//! The ways in which applying a patch can fail.

use vstd::prelude::*;

verus! {

/// One of the three checksums stored in a patch's footer.
#[derive(Clone, Copy, Debug, PartialEq, Eq, Structural)]
pub enum ChecksumKind {
    /// The checksum of the source file.
    Source,
    /// The checksum of the rebuilt target file.
    Target,
    /// The checksum of the patch itself, its last four bytes excluded.
    Patch,
}

/// Why a patch could not be applied. Every failure is final: no partial
/// target is handed out.
#[derive(Clone, Copy, Debug, PartialEq, Eq, Structural)]
pub enum PatchError {
    /// The patch does not start with the four bytes `BPS1`.
    HeaderError,
    /// The declared metadata size is larger than `i64::MAX`.
    MetadataSizeError,
    /// The source buffer is not as long as the patch says it must be.
    SourceSizeMismatch,
    /// A variable-length integer is not terminated, or does not fit in 64 bits.
    MalformedVarint,
    /// An instruction reaches outside the buffer it reads from, or the
    /// metadata is declared longer than the patch.
    OutOfBoundsCopy,
    /// The instructions do not end exactly where the 12-byte footer starts.
    TruncatedPatchError,
    /// A checksum in the footer disagrees with the data; the first one that
    /// does is named.
    ChecksumMismatch(ChecksumKind),
}

impl PatchError {
    /// The text of [`PatchError::message`].
    pub open spec fn spec_message(self) -> Seq<char> {
        match self {
            PatchError::HeaderError => "not a valid BPS header"@,
            PatchError::MetadataSizeError => "illegal metadata size"@,
            PatchError::SourceSizeMismatch => "patch does not apply to input file: wrong length"@,
            PatchError::MalformedVarint => "invalid BPS file: malformed number"@,
            PatchError::OutOfBoundsCopy => "invalid BPS file: copy out of bounds"@,
            PatchError::TruncatedPatchError => "invalid BPS file: truncated"@,
            PatchError::ChecksumMismatch(ChecksumKind::Source) => "source CRC doesn't match"@,
            PatchError::ChecksumMismatch(ChecksumKind::Target) => "target CRC doesn't match"@,
            PatchError::ChecksumMismatch(ChecksumKind::Patch) => "patch CRC doesn't match"@,
        }
    }

    /// A short description of the failure, for a person to read.
    pub fn message(&self) -> (text: &'static str)
        ensures
            text@ == self.spec_message(),
    {
        match self {
            PatchError::HeaderError => "not a valid BPS header",
            PatchError::MetadataSizeError => "illegal metadata size",
            PatchError::SourceSizeMismatch => "patch does not apply to input file: wrong length",
            PatchError::MalformedVarint => "invalid BPS file: malformed number",
            PatchError::OutOfBoundsCopy => "invalid BPS file: copy out of bounds",
            PatchError::TruncatedPatchError => "invalid BPS file: truncated",
            PatchError::ChecksumMismatch(ChecksumKind::Source) => "source CRC doesn't match",
            PatchError::ChecksumMismatch(ChecksumKind::Target) => "target CRC doesn't match",
            PatchError::ChecksumMismatch(ChecksumKind::Patch) => "patch CRC doesn't match",
        }
    }
}

} // verus!
