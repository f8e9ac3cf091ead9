use glacier_stream::cmd::list_parts::{next_marker, Part, PartListParseError, Range, RangeParseError};
use glacier_stream::cmd::stream::{decode_checksum, ChecksumError};
use glacier_stream::util::hexcode::{decode_hash, encode_hash, HexError};

const HASH: &str = "000102030405060708090a0b0c0d0e0f101112131415161718191A1B1C1D1E1F";

#[test]
fn range_parses_start_and_end() {
    let r = Range::try_from("0-1048575").unwrap();
    assert_eq!(r.start, 0);
    assert_eq!(r.end, 1048575);
    let r = Range::try_from("+5-7-9").unwrap();
    assert_eq!((r.start, r.end), (5, 7));
}

#[test]
fn range_errors() {
    assert!(matches!(Range::try_from("12"), Err(RangeParseError::InvalidFormat)));
    assert!(matches!(Range::try_from(""), Err(RangeParseError::InvalidFormat)));
    assert!(matches!(Range::try_from("a-2"), Err(RangeParseError::InvalidNumber(_))));
    assert!(matches!(Range::try_from("1-"), Err(RangeParseError::InvalidNumber(_))));
    assert!(matches!(Range::try_from("1-18446744073709551616"), Err(RangeParseError::InvalidNumber(_))));
    assert!(matches!(Range::try_from(" 1-2"), Err(RangeParseError::InvalidNumber(_))));
}

#[test]
fn part_parses_range_and_hash() {
    let p = Part::try_from(Some("0-1023"), Some(HASH)).unwrap();
    assert_eq!(p.range.start, 0);
    assert_eq!(p.range.end, 1023);
    let expected: Vec<u8> = (0..32u8).collect();
    assert_eq!(p.tree_hash.to_vec(), expected);
}

#[test]
fn part_errors_in_order() {
    assert!(matches!(Part::try_from(None, None), Err(PartListParseError::MissingRange)));
    assert!(matches!(Part::try_from(Some("x"), None), Err(PartListParseError::InvalidRange(_))));
    assert!(matches!(Part::try_from(Some("1-2"), None), Err(PartListParseError::MissingHash)));
    assert!(matches!(
        Part::try_from(Some("1-2"), Some("abc")),
        Err(PartListParseError::HexDecodeError(HexError::OddLength))
    ));
    assert!(matches!(
        Part::try_from(Some("1-2"), Some("zz")),
        Err(PartListParseError::HexDecodeError(HexError::InvalidHexCharacter { c: 'z', index: 0 }))
    ));
    assert!(matches!(Part::try_from(Some("1-2"), Some("abcd")), Err(PartListParseError::InvalidHashLength)));
}

#[test]
fn hex_decoding() {
    let mut hex = "48656c6C6f".to_string();
    hex.push_str(&"00".repeat(27));
    let mut expected = [0u8; 32];
    expected[..5].copy_from_slice(b"Hello");
    assert_eq!(decode_checksum(&hex).unwrap(), expected);
    assert_eq!(decode_checksum(""), Err(ChecksumError::InvalidLength));
    assert_eq!(decode_checksum("0g"), Err(ChecksumError::Hex(HexError::InvalidHexCharacter { c: 'g', index: 1 })));
    assert_eq!(decode_checksum("123"), Err(ChecksumError::Hex(HexError::OddLength)));
    assert_eq!(decode_checksum("é00"), Err(ChecksumError::Hex(HexError::InvalidHexCharacter { c: 'Ã', index: 0 })));
    assert_eq!(decode_hash(HASH).unwrap()[31], 0x1f);
    assert_eq!(decode_hash("00"), None);
}

#[test]
fn paging_stops_at_missing_or_null_marker() {
    assert_eq!(next_marker(None), None);
    assert_eq!(next_marker(Some("null")), None);
    assert_eq!(next_marker(Some("abc")), Some("abc".to_string()));
    assert_eq!(next_marker(Some("NULL")), Some("NULL".to_string()));
}

#[test]
fn encoded_hash_decodes_back() {
    let h = decode_hash(HASH).unwrap();
    let text = encode_hash(&h);
    assert_eq!(text, HASH.to_lowercase());
    assert_eq!(decode_hash(&text), Some(h));
    assert_eq!(encode_hash(&[0xab; 32]), "ab".repeat(32));
}
