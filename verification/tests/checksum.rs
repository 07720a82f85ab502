use beatr::checksum::{verify_crc32, verify_footer, CrcMismatch};
use beatr::error::{ChecksumKind, PatchError};

fn footer(source: u32, target: u32, patch: u32) -> Vec<u8> {
    let mut bytes = Vec::new();
    bytes.extend_from_slice(&source.to_le_bytes());
    bytes.extend_from_slice(&target.to_le_bytes());
    bytes.extend_from_slice(&patch.to_le_bytes());
    bytes
}

#[test]
fn stored_checksum_is_read_least_significant_byte_first() {
    assert_eq!(verify_crc32(&[0x78, 0x56, 0x34, 0x12], 0x1234_5678), Ok(()));
    assert_eq!(verify_crc32(&[0x00, 0x00, 0x00, 0x80], 0x8000_0000), Ok(()));
    assert_eq!(verify_crc32(&[0xff, 0xff, 0xff, 0xff], u32::MAX), Ok(()));
    assert_eq!(verify_crc32(&[0, 0, 0, 0], 0), Ok(()));
}

#[test]
fn only_the_first_four_bytes_are_read() {
    assert_eq!(verify_crc32(&[0x78, 0x56, 0x34, 0x12, 0xaa, 0xbb], 0x1234_5678), Ok(()));
}

#[test]
fn a_differing_checksum_is_reported_with_both_values() {
    assert_eq!(
        verify_crc32(&[0x78, 0x56, 0x34, 0x12], 0x1234_5679),
        Err(CrcMismatch { expected: 0x1234_5678, actual: 0x1234_5679 })
    );
    assert_eq!(
        verify_crc32(&[0x12, 0x34, 0x56, 0x78], 0x1234_5678),
        Err(CrcMismatch { expected: 0x7856_3412, actual: 0x1234_5678 })
    );
}

#[test]
fn footer_that_agrees_passes() {
    let bytes = footer(0xdead_beef, 0x0123_4567, 0x89ab_cdef);
    assert_eq!(verify_footer(&bytes, 0xdead_beef, 0x0123_4567, 0x89ab_cdef), Ok(()));
}

#[test]
fn footer_names_the_checksum_that_differs() {
    let bytes = footer(1, 2, 3);
    assert_eq!(
        verify_footer(&bytes, 9, 2, 3),
        Err(PatchError::ChecksumMismatch(ChecksumKind::Source))
    );
    assert_eq!(
        verify_footer(&bytes, 1, 9, 3),
        Err(PatchError::ChecksumMismatch(ChecksumKind::Target))
    );
    assert_eq!(
        verify_footer(&bytes, 1, 2, 9),
        Err(PatchError::ChecksumMismatch(ChecksumKind::Patch))
    );
}

#[test]
fn footer_names_the_first_checksum_that_differs() {
    let bytes = footer(1, 2, 3);
    assert_eq!(
        verify_footer(&bytes, 9, 9, 9),
        Err(PatchError::ChecksumMismatch(ChecksumKind::Source))
    );
    assert_eq!(
        verify_footer(&bytes, 1, 9, 9),
        Err(PatchError::ChecksumMismatch(ChecksumKind::Target))
    );
}

#[test]
fn any_changed_footer_byte_is_reported_under_its_checksum() {
    let good = footer(0xdead_beef, 0x0123_4567, 0x89ab_cdef);
    for index in 0..12 {
        for bit in 0..8 {
            let mut bytes = good.clone();
            bytes[index] ^= 1 << bit;
            let which = match index / 4 {
                0 => ChecksumKind::Source,
                1 => ChecksumKind::Target,
                _ => ChecksumKind::Patch,
            };
            assert_eq!(
                verify_footer(&bytes, 0xdead_beef, 0x0123_4567, 0x89ab_cdef),
                Err(PatchError::ChecksumMismatch(which))
            );
        }
    }
}
