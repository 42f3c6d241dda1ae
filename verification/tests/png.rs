use pngme::chunk::Chunk;
use pngme::chunk::ChunkError;
use pngme::chunk_type::ChunkType;
use pngme::png::Png;
use pngme::png::PngError;

fn chunk_from_strings(type_str: &str, data: &str) -> Chunk {
    let chunk_type = ChunkType::from_str(type_str).unwrap();
    Chunk::new(chunk_type, data.as_bytes().to_vec())
}

fn testing_chunks() -> Vec<Chunk> {
    vec![
        chunk_from_strings("FrSt", "I am the first chunk"),
        chunk_from_strings("miDl", "I am another chunk"),
        chunk_from_strings("LASt", "I am the last chunk"),
    ]
}

fn testing_png() -> Png {
    Png::from_chunks(testing_chunks())
}

#[test]
fn test_signature() {
    assert_eq!(Png::signature(), [0x89, 0x50, 0x4E, 0x47, 0x0D, 0x0A, 0x1A, 0x0A]);
}

#[test]
fn test_png_from_chunks() {
    let png = testing_png();
    assert_eq!(png.chunks().len(), 3);
}

#[test]
fn test_png_round_trip() {
    let png = testing_png();
    let bytes = png.as_bytes();
    let parsed = Png::parse(&bytes).unwrap();
    assert_eq!(parsed.chunks().len(), png.chunks().len());
    for (a, b) in parsed.chunks().iter().zip(png.chunks().iter()) {
        assert_eq!(a.chunk_type(), b.chunk_type());
        assert_eq!(a.data(), b.data());
        assert_eq!(a.crc(), b.crc());
    }
    assert_eq!(parsed.as_bytes(), bytes);
}

#[test]
fn test_png_parse_empty_body() {
    let png = Png::parse(&Png::signature()).unwrap();
    assert_eq!(png.chunks().len(), 0);
    assert_eq!(png.as_bytes(), Png::signature().to_vec());
}

#[test]
fn test_png_parse_rejects_bad_signature() {
    // the signature is checked before any chunk is parsed: the buffer also
    // holds a malformed record, yet the error is InvalidSignature
    let mut bytes: Vec<u8> = vec![0x13, 0x50, 0x4E, 0x47, 0x0D, 0x0A, 0x1A, 0x0A];
    bytes.extend_from_slice(&[0, 0, 0, 0, 1, 2, 3, 4, 5, 6, 7, 8]);
    match Png::parse(&bytes) {
        Err(PngError::InvalidSignature) => {}
        other => panic!("expected an InvalidSignature error, got {:?}", other),
    }
    // too short for a signature at all
    match Png::parse(&[0x89, 0x50]) {
        Err(PngError::InvalidSignature) => {}
        other => panic!("expected an InvalidSignature error, got {:?}", other),
    }
}

#[test]
fn test_png_parse_rejects_bad_chunk() {
    let mut bytes = Png::signature().to_vec();
    // a record whose length field claims 9 data bytes that are not there
    bytes.extend_from_slice(&[0, 0, 0, 9, 82, 117, 83, 116, 0, 0, 0, 0]);
    match Png::parse(&bytes) {
        Err(PngError::InvalidChunk(ChunkError::InvalidLength)) => {}
        other => panic!("expected an InvalidChunk error, got {:?}", other),
    }
}

#[test]
fn test_png_parse_is_atomic() {
    // a good chunk followed by a corrupted one fails the whole parse
    let mut png = testing_png();
    png.append_chunk(chunk_from_strings("TeSt", "Message"));
    let mut bytes = png.as_bytes();
    let last = bytes.len() - 1;
    bytes[last] ^= 0x01;
    match Png::parse(&bytes) {
        Err(PngError::InvalidChunk(ChunkError::InvalidCrc(_, _))) => {}
        other => panic!("expected an InvalidCrc error, got {:?}", other),
    }
}

#[test]
fn test_png_append_then_lookup_then_remove() {
    let mut png = testing_png();
    png.append_chunk(chunk_from_strings(
        "ruSt",
        "this is where your secret message will be!",
    ));

    let found = png.chunk_by_type("ruSt").unwrap();
    assert_eq!(found.chunk_type().to_string(), "ruSt");
    assert_eq!(
        found.data_as_string().unwrap(),
        "this is where your secret message will be!"
    );

    let removed = png.remove_chunk("ruSt").unwrap();
    assert_eq!(removed.chunk_type().to_string(), "ruSt");
    assert!(png.chunk_by_type("ruSt").is_none());
    assert_eq!(png.chunks().len(), 3);
}

#[test]
fn test_png_remove_absent_type_leaves_list_unmodified() {
    let mut png = testing_png();
    let before = png.as_bytes();
    match png.remove_chunk("NoNe") {
        Err(PngError::ChunkNotFound) => {}
        other => panic!("expected a ChunkNotFound error, got {:?}", other),
    }
    assert_eq!(png.as_bytes(), before);
    assert_eq!(png.chunks().len(), 3);
}

#[test]
fn test_png_encode_decode_flow() {
    // the whole flow the tool runs: parse a file's bytes, hide a message,
    // serialize, then read it back out of the new bytes
    let original_bytes = testing_png().as_bytes();

    let mut png = Png::parse(&original_bytes).unwrap();
    let chunk_type = ChunkType::from_str("seKr").unwrap();
    png.append_chunk(Chunk::new(chunk_type, b"meet me at dawn".to_vec()));
    let encoded_bytes = png.as_bytes();

    let reread = Png::parse(&encoded_bytes).unwrap();
    let secret = reread.chunk_by_type("seKr").unwrap();
    assert_eq!(secret.data_as_string().unwrap(), "meet me at dawn");

    // removing the message restores the original byte stream
    let mut cleaned = reread;
    cleaned.remove_chunk("seKr").unwrap();
    assert_eq!(cleaned.as_bytes(), original_bytes);
}

#[test]
fn test_png_lookup_returns_first_of_duplicates() {
    let mut png = Png::new();
    png.append_chunk(chunk_from_strings("duPl", "first"));
    png.append_chunk(chunk_from_strings("duPl", "second"));
    let found = png.chunk_by_type("duPl").unwrap();
    assert_eq!(found.data(), b"first");
    // only the first duplicate is removed
    let removed = png.remove_chunk("duPl").unwrap();
    assert_eq!(removed.data(), b"first");
    let still_there = png.chunk_by_type("duPl").unwrap();
    assert_eq!(still_there.data(), b"second");
}
