use pngme::chunk::{Chunk, DecodingReason};
use pngme::chunk_type::ChunkType;
use std::convert::TryFrom;
use std::str::FromStr;

fn testing_chunk() -> Chunk {
    let data_length: u32 = 42;
    let chunk_type = "RuSt".as_bytes();
    let message_bytes = "This is where your secret message will be!".as_bytes();
    let crc: u32 = 2882656334;

    let chunk_data: Vec<u8> = data_length
        .to_be_bytes()
        .iter()
        .chain(chunk_type.iter())
        .chain(message_bytes.iter())
        .chain(crc.to_be_bytes().iter())
        .copied()
        .collect();

    Chunk::try_from(chunk_data.as_ref()).unwrap()
}

fn encoded(length: u32, chunk_type: &[u8], data: &[u8], crc: u32) -> Vec<u8> {
    length
        .to_be_bytes()
        .iter()
        .chain(chunk_type.iter())
        .chain(data.iter())
        .chain(crc.to_be_bytes().iter())
        .copied()
        .collect()
}

#[test]
fn test_new_chunk() {
    let chunk_type = ChunkType::from_str("RuSt").unwrap();
    let data = "This is where your secret message will be!".as_bytes().to_vec();
    let chunk = Chunk::new(chunk_type, data);
    assert_eq!(chunk.length(), 42);
    assert_eq!(chunk.crc(), 2882656334);
}

#[test]
fn test_chunk_length() {
    let chunk = testing_chunk();
    assert_eq!(chunk.length(), 42);
}

#[test]
fn test_chunk_type() {
    let chunk = testing_chunk();
    assert_eq!(chunk.chunk_type().to_string(), String::from("RuSt"));
}

#[test]
fn test_chunk_string() {
    let chunk = testing_chunk();
    let chunk_string = chunk.data_as_string().unwrap();
    let expected_chunk_string = String::from("This is where your secret message will be!");
    assert_eq!(chunk_string, expected_chunk_string);
}

#[test]
fn test_chunk_crc() {
    let chunk = testing_chunk();
    assert_eq!(chunk.crc(), 2882656334);
}

#[test]
fn test_valid_chunk_from_bytes() {
    let data_length: u32 = 42;
    let chunk_type = "RuSt".as_bytes();
    let message_bytes = "This is where your secret message will be!".as_bytes();
    let crc: u32 = 2882656334;

    let chunk_data: Vec<u8> = data_length
        .to_be_bytes()
        .iter()
        .chain(chunk_type.iter())
        .chain(message_bytes.iter())
        .chain(crc.to_be_bytes().iter())
        .copied()
        .collect();

    let chunk = Chunk::try_from(chunk_data.as_ref()).unwrap();

    let chunk_string = chunk.data_as_string().unwrap();
    let expected_chunk_string = String::from("This is where your secret message will be!");

    assert_eq!(chunk.length(), 42);
    assert_eq!(chunk.chunk_type().to_string(), String::from("RuSt"));
    assert_eq!(chunk_string, expected_chunk_string);
    assert_eq!(chunk.crc(), 2882656334);
}

#[test]
fn test_invalid_chunk_from_bytes() {
    let data_length: u32 = 42;
    let chunk_type = "RuSt".as_bytes();
    let message_bytes = "This is where your secret message will be!".as_bytes();
    let crc: u32 = 2882656333;

    let chunk_data: Vec<u8> = data_length
        .to_be_bytes()
        .iter()
        .chain(chunk_type.iter())
        .chain(message_bytes.iter())
        .chain(crc.to_be_bytes().iter())
        .copied()
        .collect();

    let chunk = Chunk::try_from(chunk_data.as_ref());

    assert!(chunk.is_err());
}

#[test]
pub fn test_chunk_trait_impls() {
    let data_length: u32 = 42;
    let chunk_type = "RuSt".as_bytes();
    let message_bytes = "This is where your secret message will be!".as_bytes();
    let crc: u32 = 2882656334;

    let chunk_data: Vec<u8> = data_length
        .to_be_bytes()
        .iter()
        .chain(chunk_type.iter())
        .chain(message_bytes.iter())
        .chain(crc.to_be_bytes().iter())
        .copied()
        .collect();

    let chunk: Chunk = TryFrom::try_from(chunk_data.as_ref()).unwrap();

    let _chunk_string = format!("{:?}", chunk);
}

#[test]
fn known_vector_checksum() {
    let t = ChunkType::from_string("RuSt").unwrap();
    let chunk = Chunk::new(t, b"This is where your secret message will be!".to_vec());
    assert_eq!(chunk.crc(), 2882656334);
    // The checksum covers the type bytes too.
    let other = Chunk::new(ChunkType::from_string("RUSt").unwrap(), b"This is where your secret message will be!".to_vec());
    assert_ne!(other.crc(), 2882656334);
}

#[test]
fn empty_data_checksum() {
    // CRC-32 of the bytes "IEND" is the well-known trailer checksum 0xAE426082.
    let chunk = Chunk::new(ChunkType::from_string("IEND").unwrap(), Vec::new());
    assert_eq!(chunk.crc(), 0xAE426082);
    assert_eq!(chunk.as_bytes(), vec![0, 0, 0, 0, 73, 69, 78, 68, 0xAE, 0x42, 0x60, 0x82]);
}

#[test]
fn encoding_layout() {
    let chunk = Chunk::new(ChunkType::from_string("RuSt").unwrap(), b"This is where your secret message will be!".to_vec());
    let bytes = chunk.as_bytes();
    assert_eq!(bytes.len(), 54);
    assert_eq!(bytes, encoded(42, b"RuSt", b"This is where your secret message will be!", 2882656334));
}

#[test]
fn decode_of_encode_keeps_checksum() {
    let chunk = Chunk::new(ChunkType::from_string("ruSt").unwrap(), vec![0, 255, 128, 7]);
    let bytes = chunk.as_bytes();
    let back = Chunk::from_bytes(&bytes).unwrap();
    assert_eq!(back.data(), &[0, 255, 128, 7]);
    assert_eq!(back.chunk_type().bytes(), *b"ruSt");
    assert_eq!(back.crc(), chunk.crc());
}

#[test]
fn flipping_a_bit_fails_the_checksum() {
    let chunk = Chunk::new(ChunkType::from_string("RuSt").unwrap(), b"hello world".to_vec());
    let bytes = chunk.as_bytes();
    for pos in 8..bytes.len() {
        for bit in 0..8 {
            let mut flipped = bytes.clone();
            flipped[pos] ^= 1u8 << bit;
            let err = Chunk::from_bytes(&flipped).unwrap_err();
            assert!(matches!(err.reason, DecodingReason::CrcMismatch { .. }), "pos {} bit {}", pos, bit);
        }
    }
}

#[test]
fn crc_mismatch_reports_both_values() {
    let bytes = encoded(42, b"RuSt", b"This is where your secret message will be!", 2882656333);
    let err = Chunk::from_bytes(&bytes).unwrap_err();
    assert_eq!(err.reason, DecodingReason::CrcMismatch { received: 2882656333, computed: 2882656334 });
}

#[test]
fn decoding_errors() {
    assert_eq!(Chunk::from_bytes(&[0, 0, 0]).unwrap_err().reason, DecodingReason::Truncated);
    let bad_type = encoded(0, b"Ru1t", b"", 0);
    assert_eq!(Chunk::from_bytes(&bad_type).unwrap_err().reason, DecodingReason::InvalidType);
    let mut short = encoded(42, b"RuSt", b"This is where your secret message will be!", 2882656334);
    short.pop();
    assert_eq!(Chunk::from_bytes(&short).unwrap_err().reason, DecodingReason::Truncated);
    let huge = encoded(u32::MAX, b"RuSt", b"abc", 0);
    assert_eq!(Chunk::from_bytes(&huge).unwrap_err().reason, DecodingReason::Truncated);
    let mut long = encoded(42, b"RuSt", b"This is where your secret message will be!", 2882656334);
    long.push(0);
    assert_eq!(Chunk::from_bytes(&long).unwrap_err().reason, DecodingReason::TrailingBytes);
}

#[test]
fn decode_at_reports_end() {
    let mut bytes = vec![9, 9];
    bytes.extend(encoded(42, b"RuSt", b"This is where your secret message will be!", 2882656334));
    bytes.push(1);
    let (chunk, end) = Chunk::decode_at(&bytes, 2).unwrap();
    assert_eq!(end, 56);
    assert_eq!(chunk.length(), 42);
}

#[test]
fn non_utf8_data_is_not_text() {
    let chunk = Chunk::new(ChunkType::from_string("RuSt").unwrap(), vec![0xff, 0xfe]);
    assert!(chunk.data_as_string().is_err());
    let ok = Chunk::new(ChunkType::from_string("RuSt").unwrap(), "héllo".as_bytes().to_vec());
    assert_eq!(ok.data_as_string().unwrap(), "héllo");
}
