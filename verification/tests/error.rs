use beatr::error::{ChecksumKind, PatchError};

#[test]
fn every_error_has_its_own_message() {
    let errors = [
        PatchError::HeaderError,
        PatchError::MetadataSizeError,
        PatchError::SourceSizeMismatch,
        PatchError::MalformedVarint,
        PatchError::OutOfBoundsCopy,
        PatchError::TruncatedPatchError,
        PatchError::ChecksumMismatch(ChecksumKind::Source),
        PatchError::ChecksumMismatch(ChecksumKind::Target),
        PatchError::ChecksumMismatch(ChecksumKind::Patch),
    ];
    for (i, a) in errors.iter().enumerate() {
        assert!(!a.message().is_empty());
        for b in &errors[i + 1..] {
            assert_ne!(a, b);
            assert_ne!(a.message(), b.message());
        }
    }
}

#[test]
fn messages_name_what_went_wrong() {
    assert_eq!(PatchError::HeaderError.message(), "not a valid BPS header");
    assert_eq!(PatchError::MetadataSizeError.message(), "illegal metadata size");
    assert_eq!(
        PatchError::ChecksumMismatch(ChecksumKind::Target).message(),
        "target CRC doesn't match"
    );
}
