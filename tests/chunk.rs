use pngme::{Chunk, ChunkType, PngError};
use std::str::FromStr;

fn testing_chunk() -> Chunk {
    let data_length: u32 = 42;
    let chunk_type = "RuSt".as_bytes();
    let message_bytes = "This is where your secret message will be!".as_bytes();
    let crc: u32 = 2882656334;

    let chunk_data: Vec<u8> = data_length
        .to_be_bytes()
        .iter()
        .chain(chunk_type.iter())
        .chain(message_bytes.iter())
        .chain(crc.to_be_bytes().iter())
        .copied()
        .collect();

    Chunk::try_from(chunk_data.as_ref()).unwrap()
}

fn wire(crc: u32) -> Vec<u8> {
    let data_length: u32 = 42;
    let chunk_type = "RuSt".as_bytes();
    let message_bytes = "This is where your secret message will be!".as_bytes();
    data_length
        .to_be_bytes()
        .iter()
        .chain(chunk_type.iter())
        .chain(message_bytes.iter())
        .chain(crc.to_be_bytes().iter())
        .copied()
        .collect()
}

#[test]
fn test_new_chunk() {
    let chunk_type = ChunkType::from_str("RuSt").unwrap();
    let data = "This is where your secret message will be!"
        .as_bytes()
        .to_vec();
    let chunk = Chunk::new(chunk_type, data);
    assert_eq!(chunk.length(), 42);
    assert_eq!(chunk.crc(), 2882656334);
}

#[test]
fn test_chunk_length() {
    let chunk = testing_chunk();
    assert_eq!(chunk.length(), 42);
}

#[test]
fn test_chunk_type() {
    let chunk = testing_chunk();
    assert_eq!(chunk.chunk_type().to_string(), String::from("RuSt"));
}

#[test]
fn test_chunk_string() {
    let chunk = testing_chunk();
    let chunk_string = chunk.data_as_string().unwrap();
    let expected_chunk_string = String::from("This is where your secret message will be!");
    assert_eq!(chunk_string, expected_chunk_string);
}

#[test]
fn test_chunk_crc() {
    let chunk = testing_chunk();
    assert_eq!(chunk.crc(), 2882656334);
}

#[test]
fn test_valid_chunk_from_bytes() {
    let chunk_data = wire(2882656334);

    let chunk = Chunk::try_from(chunk_data.as_ref()).unwrap();

    let chunk_string = chunk.data_as_string().unwrap();
    let expected_chunk_string = String::from("This is where your secret message will be!");

    assert_eq!(chunk.length(), 42);
    assert_eq!(chunk.chunk_type().to_string(), String::from("RuSt"));
    assert_eq!(chunk_string, expected_chunk_string);
    assert_eq!(chunk.crc(), 2882656334);
}

#[test]
fn test_invalid_chunk_from_bytes() {
    let chunk_data = wire(2882656333);

    let chunk = Chunk::try_from(chunk_data.as_ref());

    assert!(chunk.is_err());
}

#[test]
pub fn test_chunk_trait_impls() {
    let chunk_data = wire(2882656334);

    let chunk: Chunk = TryFrom::try_from(chunk_data.as_ref()).unwrap();

    let _chunk_string = format!("{:?}", chunk);
}

#[test]
fn serialized_chunk_is_exact() {
    let chunk = testing_chunk();
    let bytes = chunk.as_bytes();
    assert_eq!(bytes, wire(2882656334));
    assert_eq!(bytes.len(), 12 + 42);
}

#[test]
fn checksum_mismatch_reports_both_values() {
    match Chunk::parse(&wire(2882656333)) {
        Err(PngError::ChecksumMismatch { stored, computed }) => {
            assert_eq!(stored, 2882656333);
            assert_eq!(computed, 2882656334);
        }
        other => panic!("unexpected {:?}", other),
    }
}

#[test]
fn every_single_bit_flip_in_type_or_payload_is_caught() {
    let good = wire(2882656334);
    for byte in 4..(8 + 42) {
        for bit in 0..8 {
            let mut bad = good.clone();
            bad[byte] ^= 1u8 << bit;
            assert!(
                matches!(Chunk::parse(&bad), Err(PngError::ChecksumMismatch { .. })),
                "byte {byte} bit {bit}"
            );
        }
    }
}

#[test]
fn every_strict_prefix_is_truncated() {
    let good = wire(2882656334);
    for k in 0..good.len() {
        match Chunk::parse(&good[..k]) {
            Err(PngError::TruncatedInput { available, .. }) => assert_eq!(available, k as u64),
            other => panic!("prefix {k}: unexpected {:?}", other),
        }
    }
}

#[test]
fn trailing_bytes_are_not_read() {
    let mut bytes = wire(2882656334);
    bytes.extend_from_slice(&[1, 2, 3]);
    let chunk = Chunk::parse(&bytes).unwrap();
    assert_eq!(chunk.length(), 42);
    assert_eq!(chunk.crc(), 2882656334);
}

#[test]
fn empty_payload_chunk() {
    let chunk = Chunk::new(ChunkType::from_string("IEND").unwrap(), Vec::new());
    assert_eq!(chunk.length(), 0);
    // The well-known checksum of an IEND chunk.
    assert_eq!(chunk.crc(), 0xAE426082);
    let bytes = chunk.as_bytes();
    assert_eq!(bytes, vec![0, 0, 0, 0, 73, 69, 78, 68, 0xAE, 0x42, 0x60, 0x82]);
    let back = Chunk::parse(&bytes).unwrap();
    assert_eq!(back.length(), 0);
    assert_eq!(back.data(), &[] as &[u8]);
}

#[test]
fn non_utf8_payload_is_decode_error() {
    let chunk = Chunk::new(ChunkType::from_string("RuSt").unwrap(), vec![0xff, 0x00]);
    assert!(matches!(chunk.data_as_string(), Err(PngError::NotUtf8)));
}

#[test]
fn summary_line() {
    let chunk = testing_chunk();
    assert_eq!(chunk.summary().unwrap(), "Chunk Type: RuSt, Chunk length: 42");
    let empty = Chunk::new(ChunkType::from_string("IEND").unwrap(), Vec::new());
    assert_eq!(empty.summary().unwrap(), "Chunk Type: IEND, Chunk length: 0");
    let long = Chunk::new(ChunkType::from_string("abcd").unwrap(), vec![7u8; 1090]);
    assert_eq!(long.summary().unwrap(), "Chunk Type: abcd, Chunk length: 1090");
    let odd = Chunk::new(ChunkType::from_bytes([0xff, 0, 0, 0]), Vec::new());
    assert!(matches!(odd.summary(), Err(PngError::NotUtf8)));
}

#[test]
fn huge_declared_length_is_truncated() {
    let mut bytes = vec![0xff, 0xff, 0xff, 0xff];
    bytes.extend_from_slice(b"RuSt");
    bytes.extend_from_slice(&[0; 8]);
    match Chunk::parse(&bytes) {
        Err(PngError::TruncatedInput { needed, available }) => {
            assert_eq!(needed, 12 + u32::MAX as u64);
            assert_eq!(available, 16);
        }
        other => panic!("unexpected {:?}", other),
    }
}
