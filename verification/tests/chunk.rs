use pngme::chunk::Chunk;
use pngme::chunk::ChunkError;
use pngme::chunk_type::ChunkType;
use pngme::chunk_type::ChunkTypeError;
use pngme::crc::crc32;

fn sample_chunk(type_str: &str, message: &str) -> Chunk {
    let chunk_type = ChunkType::from_str(type_str).unwrap();
    Chunk::new(chunk_type, message.as_bytes().to_vec())
}

#[test]
fn test_crc32_check_value() {
    // the standard check value of this CRC-32
    assert_eq!(crc32(b"123456789"), 0xCBF43926);
    // the checksum every empty IEND chunk carries
    assert_eq!(crc32(b"IEND"), 0xAE426082);
    assert_eq!(crc32(b""), 0);
}

#[test]
fn test_chunk_new_accessors() {
    let chunk = sample_chunk("RuSt", "This is where your secret message will be!");
    assert_eq!(chunk.length(), 42);
    assert_eq!(chunk.chunk_type().to_string(), "RuSt");
    assert_eq!(chunk.data(), "This is where your secret message will be!".as_bytes());
    assert_eq!(chunk.crc(), 2882656334);
}

#[test]
fn test_chunk_as_bytes_layout() {
    let chunk = sample_chunk("IEND", "");
    let bytes = chunk.as_bytes();
    assert_eq!(bytes, vec![0, 0, 0, 0, 73, 69, 78, 68, 0xAE, 0x42, 0x60, 0x82]);
}

#[test]
fn test_chunk_round_trip() {
    let chunk = sample_chunk("ruSt", "Hello, world!");
    let bytes = chunk.as_bytes();
    let parsed = Chunk::parse(&bytes).unwrap();
    assert_eq!(parsed.chunk_type(), chunk.chunk_type());
    assert_eq!(parsed.data(), chunk.data());
    assert_eq!(parsed.crc(), chunk.crc());
    assert_eq!(parsed.length(), chunk.length());
    assert_eq!(parsed.as_bytes(), bytes);
}

#[test]
fn test_chunk_parse_valid_record() {
    let data_length: u32 = 42;
    let chunk_type = "RuSt".as_bytes();
    let message_bytes = "This is where your secret message will be!".as_bytes();
    let crc: u32 = 2882656334;

    let chunk_data: Vec<u8> = data_length
        .to_be_bytes()
        .iter()
        .chain(chunk_type.iter())
        .chain(message_bytes.iter())
        .chain(crc.to_be_bytes().iter())
        .copied()
        .collect();

    let chunk = Chunk::parse(chunk_data.as_slice()).unwrap();
    assert_eq!(chunk.length(), 42);
    assert_eq!(chunk.crc(), 2882656334);
    assert_eq!(chunk.data_as_string().unwrap(), "This is where your secret message will be!");
}

#[test]
fn test_chunk_parse_truncated() {
    // fewer than 12 bytes
    assert_eq!(Chunk::parse(&[0, 0, 0, 0]).unwrap_err(), ChunkError::InvalidLength);
    // length field claims more data than the buffer holds
    let chunk = sample_chunk("RuSt", "hi");
    let mut bytes = chunk.as_bytes();
    bytes.truncate(13);
    assert_eq!(Chunk::parse(&bytes).unwrap_err(), ChunkError::InvalidLength);
}

#[test]
fn test_chunk_parse_bad_crc() {
    let chunk = sample_chunk("RuSt", "hi");
    let mut bytes = chunk.as_bytes();
    let last = bytes.len() - 1;
    bytes[last] ^= 0xFF;
    match Chunk::parse(&bytes) {
        Err(ChunkError::InvalidCrc(expected, actual)) => {
            assert_eq!(expected, chunk.crc());
            assert_ne!(expected, actual);
        }
        other => panic!("expected an InvalidCrc error, got {:?}", other),
    }
}

#[test]
fn test_chunk_parse_bad_type_with_good_crc() {
    // a record whose checksum is right but whose type bytes are not letters
    let type_bytes: &[u8] = &[82, 117, 49, 116];
    let payload: &[u8] = b"xy";
    let body: Vec<u8> = type_bytes.iter().chain(payload.iter()).copied().collect();
    let crc = crc32(&body);
    let mut record: Vec<u8> = vec![0, 0, 0, 2];
    record.extend_from_slice(&body);
    record.extend_from_slice(&crc.to_be_bytes());
    assert_eq!(
        Chunk::parse(&record).unwrap_err(),
        ChunkError::InvalidType(ChunkTypeError::InvalidCharacter)
    );
}

#[test]
fn test_chunk_crc_detects_every_bit_flip() {
    // flipping any single bit of the type or data region must be caught
    let chunk = sample_chunk("ruSt", "secret");
    let bytes = chunk.as_bytes();
    let data_end = bytes.len() - 4;
    for j in 4..data_end {
        for k in 0..8 {
            let mut corrupted = bytes.clone();
            corrupted[j] ^= 1u8 << k;
            match Chunk::parse(&corrupted) {
                Err(ChunkError::InvalidCrc(_, _)) => {}
                other => panic!(
                    "bit {} of byte {} flipped, but parsing gave {:?}",
                    k, j, other
                ),
            }
        }
    }
}

#[test]
fn test_chunk_data_as_string_rejects_binary() {
    let chunk_type = ChunkType::from_str("ruSt").unwrap();
    let chunk = Chunk::new(chunk_type, vec![0xFF, 0xFE, 0x80]);
    assert_eq!(chunk.data_as_string(), Err(ChunkError::InvalidUtf8));
}
