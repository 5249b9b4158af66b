use pngme::chunk::Chunk;
use pngme::chunk_type::ChunkType;
use pngme::error::PngError;

fn record(crc: u32) -> Vec<u8> {
    let data_length: u32 = 42;
    let chunk_type = "RuSt".as_bytes();
    let message_bytes = "This is where your secret message will be!".as_bytes();
    data_length
        .to_be_bytes()
        .iter()
        .chain(chunk_type.iter())
        .chain(message_bytes.iter())
        .chain(crc.to_be_bytes().iter())
        .copied()
        .collect()
}

fn testing_chunk() -> Chunk {
    Chunk::try_from(record(2882656334).as_ref()).unwrap()
}

#[test]
fn test_new_chunk() {
    let chunk_type = ChunkType::from_str("RuSt").unwrap();
    let data = "This is where your secret message will be!".as_bytes().to_vec();
    let chunk = Chunk::new(chunk_type, data);
    assert_eq!(chunk.length(), 42);
    assert_eq!(chunk.crc(), 2882656334);
}

#[test]
fn test_chunk_length() {
    let chunk = testing_chunk();
    assert_eq!(chunk.length(), 42);
}

#[test]
fn test_chunk_type() {
    let chunk = testing_chunk();
    assert_eq!(&chunk.chunk_type().bytes(), b"RuSt");
}

#[test]
fn test_chunk_crc() {
    let chunk = testing_chunk();
    assert_eq!(chunk.crc(), 2882656334);
}

#[test]
fn test_valid_chunk_from_bytes() {
    let chunk = Chunk::try_from(record(2882656334).as_ref()).unwrap();

    let chunk_string = chunk.data_as_string().unwrap();
    let expected_chunk_string = String::from("This is where your secret message will be!");

    assert_eq!(chunk.length(), 42);
    assert_eq!(&chunk.chunk_type().bytes(), b"RuSt");
    assert_eq!(chunk_string, expected_chunk_string);
    assert_eq!(chunk.crc(), 2882656334);
}

#[test]
fn test_invalid_chunk_from_bytes() {
    let chunk = Chunk::try_from(record(2882656333).as_ref());
    assert!(chunk.is_err());
}

#[test]
pub fn test_chunk_trait_impls() {
    let chunk = Chunk::try_from(record(2882656334).as_ref()).unwrap();
    assert_eq!(chunk.as_bytes(), record(2882656334));
}

#[test]
fn chunk_round_trip() {
    let c = Chunk::new(ChunkType::from_str("TEST").unwrap(), b"hello".to_vec());
    let back = Chunk::try_from(c.as_bytes().as_slice()).unwrap();
    assert_eq!(back.data(), b"hello");
    assert_eq!(back.crc(), c.crc());
    assert_eq!(back.as_bytes(), c.as_bytes());
}

#[test]
fn flipped_bit_is_crc_mismatch() {
    let mut bytes = record(2882656334);
    bytes[10] ^= 0x01;
    assert!(matches!(Chunk::try_from(bytes.as_slice()), Err(PngError::CrcMismatch)));
}

#[test]
fn prefixes_are_truncated() {
    let bytes = record(2882656334);
    for n in 1..bytes.len() {
        assert!(matches!(Chunk::try_from(&bytes[..n]), Err(PngError::TruncatedRecord)));
    }
}

#[test]
fn bad_tag_in_record() {
    let mut bytes = record(2882656334);
    bytes[6] = b'1';
    assert!(matches!(Chunk::try_from(bytes.as_slice()), Err(PngError::InvalidTag)));
}

#[test]
fn test_chunk_string() {
    let chunk = testing_chunk();
    let chunk_string = chunk.data_as_string().unwrap();
    let expected_chunk_string = String::from("This is where your secret message will be!");
    assert_eq!(chunk_string, expected_chunk_string);
}

#[test]
fn payload_not_utf8() {
    let c = Chunk::new(ChunkType::from_str("RuSt").unwrap(), vec![0xff, 0xfe]);
    assert_eq!(c.data_as_string(), Err(PngError::NotUtf8));
}
