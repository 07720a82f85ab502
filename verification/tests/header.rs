use beatr::error::PatchError;
use beatr::header::parse_header;
use beatr::varint::encodenum;

fn header(tag: &[u8], source_size: u64, target_size: u64, metadata: &[u8]) -> Vec<u8> {
    let mut bytes = tag.to_vec();
    encodenum(source_size, &mut bytes);
    encodenum(target_size, &mut bytes);
    encodenum(metadata.len() as u64, &mut bytes);
    bytes.extend_from_slice(metadata);
    bytes
}

#[test]
fn header_without_metadata() {
    let mut patch = header(b"BPS1", 7, 9, b"");
    patch.extend_from_slice(&[1, 2, 3]);
    let (source_size, target_size, rest) = parse_header(&patch).unwrap();
    assert_eq!(source_size, 7);
    assert_eq!(target_size, 9);
    assert_eq!(rest, &[1, 2, 3]);
}

#[test]
fn header_bytes_are_laid_out_as_tag_and_three_numbers() {
    let patch = [0x42, 0x50, 0x53, 0x31, 0x87, 0x00, 0x80, 0x80, 0xaa];
    let (source_size, target_size, rest) = parse_header(&patch).unwrap();
    assert_eq!(source_size, 7);
    assert_eq!(target_size, 128);
    assert_eq!(rest, &[0xaa]);
}

#[test]
fn metadata_is_passed_over_unread() {
    let mut patch = header(b"BPS1", 1000, 2000, b"<meta>anything \x80\xff</meta>");
    patch.extend_from_slice(b"rest");
    let (source_size, target_size, rest) = parse_header(&patch).unwrap();
    assert_eq!(source_size, 1000);
    assert_eq!(target_size, 2000);
    assert_eq!(rest, b"rest");
}

#[test]
fn header_may_leave_nothing_over() {
    let patch = header(b"BPS1", 0, 0, b"xyz");
    let (_, _, rest) = parse_header(&patch).unwrap();
    assert!(rest.is_empty());
}

#[test]
fn sizes_may_be_as_large_as_64_bits_allow() {
    let patch = header(b"BPS1", u64::MAX, u64::MAX - 1, b"");
    let (source_size, target_size, _) = parse_header(&patch).unwrap();
    assert_eq!(source_size, u64::MAX);
    assert_eq!(target_size, u64::MAX - 1);
}

#[test]
fn wrong_tag_is_a_header_error() {
    let tags = [
        &b"BPS2"[..], b"bps1", b"UPS1", b"BPS\0", b"\0\0\0\0", b"1SPB", b"CPS1", b"BQS1", b"BPT1",
    ];
    for tag in tags {
        let patch = header(tag, 0, 0, b"");
        assert_eq!(parse_header(&patch), Err(PatchError::HeaderError));
    }
}

#[test]
fn patch_shorter_than_the_tag_is_a_header_error() {
    assert_eq!(parse_header(b""), Err(PatchError::HeaderError));
    assert_eq!(parse_header(b"B"), Err(PatchError::HeaderError));
    assert_eq!(parse_header(b"BPS"), Err(PatchError::HeaderError));
}

#[test]
fn missing_or_unfinished_sizes_are_malformed() {
    assert_eq!(parse_header(b"BPS1"), Err(PatchError::MalformedVarint));
    assert_eq!(parse_header(b"BPS1\x80"), Err(PatchError::MalformedVarint));
    assert_eq!(parse_header(b"BPS1\x80\x80"), Err(PatchError::MalformedVarint));
    assert_eq!(parse_header(b"BPS1\x80\x80\x00\x01"), Err(PatchError::MalformedVarint));
}

#[test]
fn metadata_size_beyond_i64_is_refused() {
    let mut patch = b"BPS1\x80\x80".to_vec();
    encodenum(1 << 63, &mut patch);
    patch.extend_from_slice(&[0; 32]);
    assert_eq!(parse_header(&patch), Err(PatchError::MetadataSizeError));
    let mut patch = b"BPS1\x80\x80".to_vec();
    encodenum(u64::MAX, &mut patch);
    assert_eq!(parse_header(&patch), Err(PatchError::MetadataSizeError));
}

#[test]
fn largest_accepted_metadata_size_needs_the_bytes_to_be_there() {
    let mut patch = b"BPS1\x80\x80".to_vec();
    encodenum((1 << 63) - 1, &mut patch);
    patch.extend_from_slice(&[0; 32]);
    assert_eq!(parse_header(&patch), Err(PatchError::OutOfBoundsCopy));
}

#[test]
fn metadata_longer_than_the_patch_is_out_of_bounds() {
    let mut patch = b"BPS1\x80\x80".to_vec();
    encodenum(4, &mut patch);
    patch.extend_from_slice(b"abc");
    assert_eq!(parse_header(&patch), Err(PatchError::OutOfBoundsCopy));
    patch.push(b'd');
    assert!(parse_header(&patch).unwrap().2.is_empty());
}
