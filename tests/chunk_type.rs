use pngme::ChunkType;
use std::convert::TryFrom;
use std::str::FromStr;

#[test]
pub fn test_chunk_type_from_bytes() {
    let expected = [82, 117, 83, 116];
    let actual = ChunkType::try_from([82, 117, 83, 116]).unwrap();

    assert_eq!(expected, actual.bytes());
}

#[test]
pub fn test_chunk_type_from_str() {
    let expected = ChunkType::try_from([82, 117, 83, 116]).unwrap();
    let actual = ChunkType::from_str("RuSt").unwrap();
    assert_eq!(expected, actual);
}

#[test]
pub fn test_chunk_type_is_critical() {
    let chunk = ChunkType::from_str("RuSt").unwrap();
    assert!(chunk.is_critical());
}

#[test]
pub fn test_chunk_type_is_not_critical() {
    let chunk = ChunkType::from_str("ruSt").unwrap();
    assert!(!chunk.is_critical());
}

#[test]
pub fn test_chunk_type_is_public() {
    let chunk = ChunkType::from_str("RUSt").unwrap();
    assert!(chunk.is_public());
}

#[test]
pub fn test_chunk_type_is_not_public() {
    let chunk = ChunkType::from_str("RuSt").unwrap();
    assert!(!chunk.is_public());
}

#[test]
pub fn test_chunk_type_is_reserved_bit_valid() {
    let chunk = ChunkType::from_str("RuSt").unwrap();
    assert!(chunk.is_reserved_bit_valid());
}

#[test]
pub fn test_chunk_type_is_reserved_bit_invalid() {
    let chunk = ChunkType::from_str("Rust").unwrap();
    assert!(!chunk.is_reserved_bit_valid());
}

#[test]
pub fn test_chunk_type_is_safe_to_copy() {
    let chunk = ChunkType::from_str("RuSt").unwrap();
    assert!(chunk.is_safe_to_copy());
}

#[test]
pub fn test_chunk_type_is_unsafe_to_copy() {
    let chunk = ChunkType::from_str("RuST").unwrap();
    assert!(!chunk.is_safe_to_copy());
}

#[test]
pub fn test_valid_chunk_is_valid() {
    let chunk = ChunkType::from_str("RuSt").unwrap();
    assert!(chunk.is_valid());
}

#[test]
pub fn test_invalid_chunk_is_valid() {
    let chunk = ChunkType::from_str("Rust").unwrap();
    assert!(!chunk.is_valid());

    let chunk = ChunkType::from_str("Ru1t");
    assert!(chunk.is_err());
}

#[test]
pub fn test_chunk_type_string() {
    let chunk = ChunkType::from_str("RuSt").unwrap();
    assert_eq!(&chunk.to_string(), "RuSt");
}

#[test]
pub fn test_chunk_type_trait_impls() {
    let chunk_type_1: ChunkType = TryFrom::try_from([82, 117, 83, 116]).unwrap();
    let chunk_type_2: ChunkType = FromStr::from_str("RuSt").unwrap();
    let _chunk_string = format!("{:?}", chunk_type_1);
    let _are_chunks_equal = chunk_type_1 == chunk_type_2;
}

#[test]
fn rust_scenario_reserved_bit_set() {
    let t = ChunkType::from_string("Rust").unwrap();
    assert_eq!(t.bytes(), [82, 117, 115, 116]);
    assert!(!t.is_reserved_bit_valid());
    assert!(!t.is_valid());
}

#[test]
fn rust_scenario_flags() {
    let t = ChunkType::from_string("RuSt").unwrap();
    assert_eq!(t.bytes(), [82, 117, 83, 116]);
    assert!(t.is_critical());
    assert!(!t.is_public());
    assert!(t.is_reserved_bit_valid());
    assert!(t.is_safe_to_copy());
}

#[test]
fn from_string_needs_exactly_four_letters() {
    for s in ["", "R", "RuS", "RuStX", "Ru1t", "Ru t", "RuS\u{e9}", "1234"] {
        assert!(matches!(ChunkType::from_string(s), Err(pngme::PngError::InvalidChunkType { .. })), "{s}");
    }
    for s in ["RuSt", "Rust", "ABCD", "abcd", "zZaA"] {
        let t = ChunkType::from_string(s).unwrap();
        assert_eq!(&t.bytes()[..], s.as_bytes());
    }
}

#[test]
fn letter_codes_valid_iff_reserved_bit_clear() {
    for s in ["RuSt", "Rust", "ABCD", "abcd", "aBcD", "ABcD"] {
        let t = ChunkType::from_string(s).unwrap();
        assert_eq!(t.is_valid(), t.is_reserved_bit_valid(), "{s}");
    }
}

#[test]
fn non_letter_bytes_are_kept_but_invalid() {
    let t = ChunkType::from_bytes([82, 49, 83, 116]);
    assert_eq!(t.bytes(), [82, 49, 83, 116]);
    assert!(!t.is_valid());
    assert_eq!(t.to_display_string().unwrap(), "R1St");
}

#[test]
fn non_utf8_code_has_no_text() {
    let t = ChunkType::from_bytes([0xff, 0xfe, 65, 65]);
    assert!(matches!(t.to_display_string(), Err(pngme::PngError::NotUtf8)));
}

#[test]
fn from_str_reports_the_offending_string() {
    match ChunkType::from_str("abc") {
        Err(pngme::PngError::InvalidChunkType { given }) => assert_eq!(given, "abc"),
        other => panic!("unexpected {:?}", other),
    }
}

#[test]
fn try_from_bytes_always_succeeds_and_compares_bytewise() {
    let a = ChunkType::try_from([0, 1, 2, 3]).unwrap();
    let b = ChunkType::try_from([0, 1, 2, 3]).unwrap();
    let c = ChunkType::try_from([0, 1, 2, 4]).unwrap();
    assert_eq!(a.bytes(), [0, 1, 2, 3]);
    assert_eq!(a, b);
    assert_ne!(a, c);
}
