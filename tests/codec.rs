use wpress_oxide::{
    decimal_text, parse_u64, read_block, BlockParseError, Field, FileParseError, Header,
    HeaderError, LengthExceededError, HEADER_SIZE,
};

fn length_error(r: Result<Header, FileParseError>) -> Option<LengthExceededError> {
    match r {
        Err(FileParseError::Length(e)) => Some(e),
        _ => None,
    }
}

#[test]
fn encode_places_fields_at_their_offsets() {
    let h = Header::from_metadata("file.txt", 11, 1700000000, "a/b").unwrap();
    assert_eq!(h.bytes.len(), HEADER_SIZE);
    assert_eq!(&h.bytes[0..8], b"file.txt");
    assert!(h.bytes[8..255].iter().all(|b| *b == 0));
    assert_eq!(&h.bytes[255..257], b"11");
    assert!(h.bytes[257..269].iter().all(|b| *b == 0));
    assert_eq!(&h.bytes[269..279], b"1700000000");
    assert_eq!(&h.bytes[281..284], b"a/b");
    assert!(h.bytes[284..].iter().all(|b| *b == 0));
    assert_eq!(h.name, "file.txt");
    assert_eq!(h.size, 11);
    assert_eq!(h.mtime, 1700000000);
    assert_eq!(h.prefix, "a/b");
}

#[test]
fn decode_inverts_encode() {
    let h = Header::from_metadata("résumé.pdf", 123456, 42, "docs/été").unwrap();
    let d = Header::from_bytes(&h.bytes).unwrap();
    assert_eq!(d.name, "résumé.pdf");
    assert_eq!(d.size, 123456);
    assert_eq!(d.mtime, 42);
    assert_eq!(d.prefix, "docs/été");
    assert_eq!(d.bytes, h.bytes);
}

#[test]
fn decode_inverts_encode_with_empty_prefix_and_zero_values() {
    let h = Header::from_metadata("x", 0, 0, "").unwrap();
    let d = Header::from_bytes(&h.bytes).unwrap();
    assert_eq!(d.name, "x");
    assert_eq!(d.size, 0);
    assert_eq!(d.mtime, 0);
    assert_eq!(d.prefix, "");
}

#[test]
fn name_of_255_bytes_fits() {
    let name = "n".repeat(255);
    let h = Header::from_metadata(&name, 1, 1, "").unwrap();
    assert_eq!(Header::from_bytes(&h.bytes).unwrap().name, name);
}

#[test]
fn name_of_256_bytes_is_too_long() {
    let name = "n".repeat(256);
    assert_eq!(
        length_error(Header::from_metadata(&name, 1, 1, "")),
        Some(LengthExceededError::Name)
    );
}

#[test]
fn name_length_counts_bytes_not_characters() {
    // 128 two-byte characters: 256 bytes.
    let name = "é".repeat(128);
    assert_eq!(
        length_error(Header::from_metadata(&name, 1, 1, "")),
        Some(LengthExceededError::Name)
    );
}

#[test]
fn size_of_14_digits_fits() {
    let h = Header::from_metadata("f", 99_999_999_999_999, 1, "").unwrap();
    assert_eq!(&h.bytes[255..269], b"99999999999999");
    assert_eq!(Header::from_bytes(&h.bytes).unwrap().size, 99_999_999_999_999);
}

#[test]
fn size_of_15_digits_is_too_long() {
    assert_eq!(
        length_error(Header::from_metadata("f", 100_000_000_000_000, 1, "")),
        Some(LengthExceededError::Size)
    );
}

#[test]
fn mtime_of_12_digits_fits() {
    let h = Header::from_metadata("f", 1, 999_999_999_999, "").unwrap();
    assert_eq!(Header::from_bytes(&h.bytes).unwrap().mtime, 999_999_999_999);
}

#[test]
fn mtime_of_13_digits_is_too_long() {
    assert_eq!(
        length_error(Header::from_metadata("f", 1, 1_000_000_000_000, "")),
        Some(LengthExceededError::Mtime)
    );
}

#[test]
fn prefix_of_4096_bytes_fits() {
    let prefix = "p".repeat(4096);
    let h = Header::from_metadata("f", 1, 1, &prefix).unwrap();
    assert_eq!(h.bytes.len(), HEADER_SIZE);
    assert_eq!(Header::from_bytes(&h.bytes).unwrap().prefix, prefix);
}

#[test]
fn prefix_of_4097_bytes_is_too_long() {
    let prefix = "p".repeat(4097);
    assert_eq!(
        length_error(Header::from_metadata("f", 1, 1, &prefix)),
        Some(LengthExceededError::Prefix)
    );
}

#[test]
fn name_length_is_reported_before_size() {
    let name = "n".repeat(300);
    assert_eq!(
        length_error(Header::from_metadata(&name, u64::MAX, u64::MAX, "")),
        Some(LengthExceededError::Name)
    );
}

#[test]
fn empty_name_is_refused() {
    assert!(matches!(
        Header::from_metadata("", 1, 1, "a"),
        Err(FileParseError::EmptyName)
    ));
}

fn block_with(name: &[u8], size: &[u8], mtime: &[u8], prefix: &[u8]) -> Vec<u8> {
    let mut b = vec![0u8; HEADER_SIZE];
    b[..name.len()].copy_from_slice(name);
    b[255..255 + size.len()].copy_from_slice(size);
    b[269..269 + mtime.len()].copy_from_slice(mtime);
    b[281..281 + prefix.len()].copy_from_slice(prefix);
    b
}

fn block_error(b: &[u8]) -> Option<BlockParseError> {
    match Header::from_bytes(b) {
        Err(HeaderError::BlockParseError(e)) => Some(e),
        _ => None,
    }
}

#[test]
fn invalid_utf8_name_is_reported() {
    let b = block_with(&[0xff, 0xfe], b"1", b"1", b"");
    assert_eq!(block_error(&b), Some(BlockParseError::FromUtf8Error(Field::Name)));
}

#[test]
fn invalid_utf8_prefix_is_reported() {
    let b = block_with(b"f", b"1", b"1", &[0xc3]);
    assert_eq!(block_error(&b), Some(BlockParseError::FromUtf8Error(Field::Prefix)));
}

#[test]
fn non_numeric_size_is_reported() {
    let b = block_with(b"f", b"12a", b"1", b"");
    assert_eq!(block_error(&b), Some(BlockParseError::IntoU64Error(Field::Size)));
}

#[test]
fn empty_mtime_is_reported() {
    let b = block_with(b"f", b"1", b"", b"");
    assert_eq!(block_error(&b), Some(BlockParseError::IntoU64Error(Field::Mtime)));
}

#[test]
fn invalid_utf8_size_is_reported() {
    let b = block_with(b"f", &[0x80], b"1", b"");
    assert_eq!(block_error(&b), Some(BlockParseError::FromUtf8Error(Field::Size)));
}

#[test]
fn embedded_zero_truncates_a_field() {
    let b = block_with(b"ab\0cd", b"7", b"8", b"dir\0x");
    let h = Header::from_bytes(&b).unwrap();
    assert_eq!(h.name, "ab");
    assert_eq!(h.size, 7);
    assert_eq!(h.mtime, 8);
    assert_eq!(h.prefix, "dir");
}

#[test]
fn field_filling_its_slot_has_no_terminator() {
    let name = [b'z'; 255];
    let b = block_with(&name, b"5", b"6", b"");
    assert_eq!(Header::from_bytes(&b).unwrap().name.len(), 255);
}

#[test]
fn read_block_stops_at_first_zero() {
    let data = [b'h', b'i', 0, b'x', b'y'];
    assert_eq!(read_block(&data, 0, 5).unwrap(), "hi");
    assert_eq!(read_block(&data, 3, 5).unwrap(), "xy");
    assert_eq!(read_block(&data, 2, 5).unwrap(), "");
    assert!(read_block(&[0xff, 0x41], 0, 2).is_err());
}

#[test]
fn parse_u64_follows_from_str() {
    assert_eq!(parse_u64("0"), Some(0));
    assert_eq!(parse_u64("+42"), Some(42));
    assert_eq!(parse_u64("007"), Some(7));
    assert_eq!(parse_u64("18446744073709551615"), Some(u64::MAX));
    assert_eq!(parse_u64("18446744073709551616"), None);
    assert_eq!(parse_u64(""), None);
    assert_eq!(parse_u64("+"), None);
    assert_eq!(parse_u64("-1"), None);
    assert_eq!(parse_u64("1 "), None);
    assert_eq!(parse_u64("99999999999999999999x"), None);
}

#[test]
fn decimal_text_matches_to_string() {
    for n in [0u64, 7, 10, 11, 4377, 1700000000, u64::MAX] {
        assert_eq!(decimal_text(n), n.to_string().into_bytes());
    }
}

#[test]
fn decode_accepts_an_empty_name() {
    let b = block_with(b"", b"3", b"4", b"p");
    let h = Header::from_bytes(&b).unwrap();
    assert_eq!(h.name, "");
    assert_eq!(h.size, 3);
    assert_eq!(h.mtime, 4);
    assert_eq!(h.prefix, "p");
    assert_eq!(h.bytes, b);
}
