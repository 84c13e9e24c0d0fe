use pngme::chunk_type::{ChunkType, ChunkTypeError};
use std::convert::TryFrom;
use std::str::FromStr;

#[test]
pub fn test_chunk_type_from_bytes() {
    let expected = [82, 117, 83, 116];
    let actual = ChunkType::try_from([82, 117, 83, 116]).unwrap();

    assert_eq!(expected, actual.bytes());
}

#[test]
pub fn test_chunk_type_from_str() {
    let expected = ChunkType::try_from([82, 117, 83, 116]).unwrap();
    let actual = ChunkType::from_str("RuSt").unwrap();
    assert_eq!(expected, actual);
}

#[test]
pub fn test_chunk_type_is_critical() {
    let chunk = ChunkType::from_str("RuSt").unwrap();
    assert!(chunk.is_critical());
}

#[test]
pub fn test_chunk_type_is_not_critical() {
    let chunk = ChunkType::from_str("ruSt").unwrap();
    assert!(!chunk.is_critical());
}

#[test]
pub fn test_chunk_type_is_public() {
    let chunk = ChunkType::from_str("RUSt").unwrap();
    assert!(chunk.is_public());
}

#[test]
pub fn test_chunk_type_is_not_public() {
    let chunk = ChunkType::from_str("RuSt").unwrap();
    assert!(!chunk.is_public());
}

#[test]
pub fn test_chunk_type_is_reserved_bit_valid() {
    let chunk = ChunkType::from_str("RuSt").unwrap();
    assert!(chunk.is_reserved_bit_valid());
}

#[test]
pub fn test_chunk_type_is_reserved_bit_invalid() {
    let chunk = ChunkType::from_str("Rust").unwrap();
    assert!(!chunk.is_reserved_bit_valid());
}

#[test]
pub fn test_chunk_type_is_safe_to_copy() {
    let chunk = ChunkType::from_str("RuSt").unwrap();
    assert!(chunk.is_safe_to_copy());
}

#[test]
pub fn test_chunk_type_is_unsafe_to_copy() {
    let chunk = ChunkType::from_str("RuST").unwrap();
    assert!(!chunk.is_safe_to_copy());
}

#[test]
pub fn test_valid_chunk_is_valid() {
    let chunk = ChunkType::from_str("RuSt").unwrap();
    assert!(chunk.is_valid());
}

#[test]
pub fn test_invalid_chunk_is_valid() {
    let chunk = ChunkType::from_str("Rust").unwrap();
    println!("Chunk: {}", chunk.to_string());
    assert!(!chunk.is_valid());

    let chunk = ChunkType::from_str("Ru1t");
    assert!(chunk.is_err());
}

#[test]
pub fn test_chunk_type_string() {
    let chunk = ChunkType::from_str("RuSt").unwrap();
    assert_eq!(&chunk.to_string(), "RuSt");
}

#[test]
pub fn test_chunk_type_trait_impls() {
    let chunk_type_1: ChunkType = TryFrom::try_from([82, 117, 83, 116]).unwrap();
    let chunk_type_2: ChunkType = FromStr::from_str("RuSt").unwrap();
    let _chunk_string = chunk_type_1.to_string();
    let _are_chunks_equal = chunk_type_1 == chunk_type_2;
}

#[test]
fn from_bytes_accepts_letters_only() {
    assert!(ChunkType::from_bytes(*b"RuSt").is_ok());
    assert_eq!(ChunkType::from_bytes(*b"Ru1t").unwrap_err(), ChunkTypeError::NotAlphabetic);
    assert_eq!(ChunkType::from_bytes([82, 117, 83, 0]).unwrap_err(), ChunkTypeError::NotAlphabetic);
    assert_eq!(ChunkType::from_bytes(*b"Ru[t").unwrap_err(), ChunkTypeError::NotAlphabetic);
    assert!(ChunkType::from_bytes(*b"AZaz").is_ok());
}

#[test]
fn from_string_rejects_wrong_length() {
    assert_eq!(ChunkType::from_string("RuS").unwrap_err(), ChunkTypeError::WrongLength(3));
    assert_eq!(ChunkType::from_string("RuStX").unwrap_err(), ChunkTypeError::WrongLength(5));
    assert_eq!(ChunkType::from_string("").unwrap_err(), ChunkTypeError::WrongLength(0));
    // Two characters that take four bytes in UTF-8 are still not letters.
    assert_eq!(ChunkType::from_string("éé").unwrap_err(), ChunkTypeError::NotAlphabetic);
}

#[test]
fn bit_semantics_of_rust_codes() {
    let t = ChunkType::from_string("RuSt").unwrap();
    assert_eq!(t.bytes(), [82, 117, 83, 116]);
    assert!(t.is_critical());
    assert!(!t.is_public());
    assert!(t.is_reserved_bit_valid());
    assert!(t.is_safe_to_copy());
    assert!(t.is_valid());
    let u = ChunkType::from_string("Rust").unwrap();
    assert!(!u.is_reserved_bit_valid());
    assert!(!u.is_valid());
}

#[test]
fn codes_differ_by_case() {
    let a = ChunkType::from_string("RuSt").unwrap();
    let b = ChunkType::from_string("rust").unwrap();
    assert!(a != b);
    assert!(a.same_code(&ChunkType::from_bytes(*b"RuSt").unwrap()));
}

#[test]
fn text_of_a_code_parses_back() {
    let t = ChunkType::from_string("ruSt").unwrap();
    let text = t.to_string();
    assert_eq!(text.as_bytes(), &t.bytes());
    assert_eq!(ChunkType::from_str(&text).unwrap(), t);
    assert_eq!(ChunkType::from_str("ab").unwrap_err(), ChunkTypeError::WrongLength(2));
}
