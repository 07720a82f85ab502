use beatr::error::PatchError;
use beatr::varint::{decode_signed, decodenum, encodenum};

fn enc_dec_num(num: u64) {
    let mut dst = Vec::new();
    encodenum(num, &mut dst);
    let (dec, rem) = decodenum(&dst).unwrap();
    assert_eq!(dec, num);
    assert_eq!(rem.len(), 0);
}

fn encoded(num: u64) -> Vec<u8> {
    let mut dst = Vec::new();
    encodenum(num, &mut dst);
    dst
}

#[test]
fn test1byte() {
    for i in 0..(1 << 7 - 1) {
        enc_dec_num(i);
    }
}

#[test]
fn testmaxbyte() {
    enc_dec_num(1 << 7);
}

#[test]
fn test2byte() {
    enc_dec_num(1 << 9);
}

#[test]
fn test3byte() {
    enc_dec_num(1 << 17 + 37);
}

#[test]
fn encodes_single_byte_values_with_the_high_bit_set() {
    assert_eq!(encoded(0), vec![0x80]);
    assert_eq!(encoded(1), vec![0x81]);
    assert_eq!(encoded(127), vec![0xff]);
}

#[test]
fn encodes_two_byte_values_without_overlap() {
    assert_eq!(encoded(128), vec![0x00, 0x80]);
    assert_eq!(encoded(129), vec![0x01, 0x80]);
    assert_eq!(encoded(255), vec![0x7f, 0x80]);
    assert_eq!(encoded(256), vec![0x00, 0x81]);
    assert_eq!(encoded(16511), vec![0x7f, 0xff]);
}

#[test]
fn encodes_three_byte_values() {
    assert_eq!(encoded(16512), vec![0x00, 0x00, 0x80]);
    assert_eq!(encoded(2113663), vec![0x7f, 0x7f, 0xff]);
}

#[test]
fn encodes_the_largest_value_in_ten_bytes() {
    let bytes = encoded(u64::MAX);
    assert_eq!(bytes, vec![0x7f, 0x7e, 0x7e, 0x7e, 0x7e, 0x7e, 0x7e, 0x7e, 0x7e, 0x80]);
    let (dec, rem) = decodenum(&bytes).unwrap();
    assert_eq!(dec, u64::MAX);
    assert!(rem.is_empty());
}

#[test]
fn encode_appends_to_what_is_there() {
    let mut dst = vec![1, 2, 3];
    encodenum(300, &mut dst);
    assert_eq!(dst, vec![1, 2, 3, 0x2c, 0x81]);
}

#[test]
fn round_trip_over_many_values() {
    let mut v: u64 = 0;
    for step in 0..2000u64 {
        enc_dec_num(v);
        enc_dec_num(u64::MAX - v);
        v = v.wrapping_mul(6364136223846793005).wrapping_add(step | 1);
    }
    for bits in 0..64 {
        enc_dec_num(1u64 << bits);
        enc_dec_num((1u64 << bits) - 1);
    }
}

#[test]
fn distinct_values_have_distinct_encodings() {
    let mut seen: Vec<Vec<u8>> = Vec::new();
    for v in 0..40000u64 {
        let bytes = encoded(v);
        if let Some(last) = seen.last() {
            assert_ne!(&bytes, last);
            assert!(bytes.len() >= last.len());
        }
        seen.push(bytes);
    }
    seen.sort();
    seen.dedup();
    assert_eq!(seen.len(), 40000);
}

#[test]
fn decode_exact_values() {
    assert_eq!(decodenum(&[0x80]).unwrap().0, 0);
    assert_eq!(decodenum(&[0xff]).unwrap().0, 127);
    assert_eq!(decodenum(&[0x00, 0x80]).unwrap().0, 128);
    assert_eq!(decodenum(&[0x7f, 0xff]).unwrap().0, 16511);
    assert_eq!(decodenum(&[0x00, 0x00, 0x80]).unwrap().0, 16512);
}

#[test]
fn decode_returns_the_bytes_behind_the_number() {
    let bytes = [0x2c, 0x81, 9, 8, 7];
    let (value, rest) = decodenum(&bytes).unwrap();
    assert_eq!(value, 300);
    assert_eq!(rest, &[9, 8, 7]);
}

#[test]
fn decode_stops_at_the_first_terminal_byte() {
    let bytes = [0x85, 0x86, 0x87];
    let (value, rest) = decodenum(&bytes).unwrap();
    assert_eq!(value, 5);
    assert_eq!(rest, &[0x86, 0x87]);
}

#[test]
fn decode_of_nothing_is_malformed() {
    assert_eq!(decodenum(&[]), Err(PatchError::MalformedVarint));
}

#[test]
fn decode_without_terminal_byte_is_malformed() {
    assert_eq!(decodenum(&[0x00]), Err(PatchError::MalformedVarint));
    assert_eq!(decodenum(&[0x7f, 0x12, 0x00]), Err(PatchError::MalformedVarint));
}

#[test]
fn decode_of_a_number_beyond_64_bits_is_malformed() {
    // one more than the encoding of u64::MAX
    let bytes = [0x00, 0x7f, 0x7e, 0x7e, 0x7e, 0x7e, 0x7e, 0x7e, 0x7e, 0x80];
    assert_eq!(decodenum(&bytes), Err(PatchError::MalformedVarint));
    let long = [0u8, 0, 0, 0, 0, 0, 0, 0, 0, 0, 0x80];
    assert_eq!(decodenum(&long), Err(PatchError::MalformedVarint));
    let huge = [0x7fu8, 0x7f, 0x7f, 0x7f, 0x7f, 0x7f, 0x7f, 0x7f, 0x7f, 0xff];
    assert_eq!(decodenum(&huge), Err(PatchError::MalformedVarint));
}

#[test]
fn signed_offsets() {
    assert_eq!(decode_signed(0), 0);
    assert_eq!(decode_signed(1), 0);
    assert_eq!(decode_signed(2), 1);
    assert_eq!(decode_signed(3), -1);
    assert_eq!(decode_signed(14), 7);
    assert_eq!(decode_signed(15), -7);
    assert_eq!(decode_signed(u64::MAX - 1), i64::MAX);
    assert_eq!(decode_signed(u64::MAX), -i64::MAX);
}

#[test]
fn signed_offsets_from_doubled_magnitudes() {
    for m in [0u64, 1, 2, 63, 64, 1000, 1 << 40, (1 << 63) - 1] {
        assert_eq!(decode_signed(2 * m), m as i64);
        assert_eq!(decode_signed(2 * m + 1), -(m as i64));
    }
}

#[test]
fn every_accepted_string_is_the_encoding_of_its_value() {
    let mut strings: Vec<Vec<u8>> = Vec::new();
    for a in 0..=255u8 {
        strings.push(vec![a]);
        for b in 0..=255u8 {
            strings.push(vec![a, b]);
            for c in [0x00u8, 0x01, 0x7f, 0x80, 0x81, 0xff] {
                strings.push(vec![a, b, c]);
            }
        }
    }
    let mut accepted = 0;
    for bytes in &strings {
        if let Ok((value, rest)) = decodenum(bytes) {
            let mut again = encoded(value);
            assert_eq!(again.len() + rest.len(), bytes.len());
            again.extend_from_slice(rest);
            assert_eq!(&again, bytes);
            accepted += 1;
        } else {
            assert!(bytes.iter().all(|b| b & 0x80 == 0));
        }
    }
    assert!(accepted > 0);
}

#[test]
fn larger_values_never_have_shorter_encodings() {
    let marks = [0u64, 127, 128, 16511, 16512, 2113663, 2113664, 1 << 32, 1 << 56, u64::MAX];
    for pair in marks.windows(2) {
        assert!(encoded(pair[0]).len() <= encoded(pair[1]).len());
    }
    assert_eq!(encoded(127).len(), 1);
    assert_eq!(encoded(128).len(), 2);
    assert_eq!(encoded(16511).len(), 2);
    assert_eq!(encoded(16512).len(), 3);
    assert_eq!(encoded(u64::MAX).len(), 10);
}
