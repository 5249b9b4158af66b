use pngme::chunk::Chunk;
use pngme::chunk_type::ChunkType;
use pngme::error::PngError;
use pngme::png::Png;

const SIG: [u8; 8] = [137, 80, 78, 71, 13, 10, 26, 10];

#[test]
fn append_then_remove() {
    let mut png = Png::try_from(&SIG[..]).unwrap();
    png.append_chunk(Chunk::new(ChunkType::from_str("TEST").unwrap(), b"hello".to_vec()));
    assert_eq!(png.chunk_by_type("TEST").unwrap().data(), b"hello");
    assert!(png.remove_chunk("TEST").is_ok());
    assert!(png.chunk_by_type("TEST").is_none());
    assert!(matches!(png.remove_chunk("TEST"), Err(PngError::NoSuchChunk)));
}

#[test]
fn container_round_trip() {
    let mut bytes = SIG.to_vec();
    bytes.extend(Chunk::new(ChunkType::from_str("IHDR").unwrap(), vec![1, 2, 3]).as_bytes());
    bytes.extend(Chunk::new(ChunkType::from_str("ruSt").unwrap(), b"secret".to_vec()).as_bytes());
    bytes.extend(Chunk::new(ChunkType::from_str("IEND").unwrap(), vec![]).as_bytes());
    let png = Png::try_from(bytes.as_slice()).unwrap();
    assert_eq!(png.chunks().len(), 3);
    assert_eq!(png.as_bytes(), bytes);
}

#[test]
fn bad_signature() {
    let mut bytes = SIG.to_vec();
    bytes[0] = 0x88;
    assert!(matches!(Png::try_from(bytes.as_slice()), Err(PngError::BadSignature)));
    assert!(matches!(Png::try_from(&SIG[..7]), Err(PngError::BadSignature)));
}

#[test]
fn corrupt_chunk_fails_container() {
    let mut bytes = SIG.to_vec();
    bytes.extend(Chunk::new(ChunkType::from_str("IEND").unwrap(), vec![]).as_bytes());
    let last = bytes.len() - 1;
    bytes[last] ^= 1;
    assert!(matches!(Png::try_from(bytes.as_slice()), Err(PngError::CrcMismatch)));
}

fn sample() -> Png {
    let mut png = Png::try_from(&SIG[..]).unwrap();
    png.append_chunk(Chunk::new(ChunkType::from_str("IHDR").unwrap(), vec![1]));
    png.append_chunk(Chunk::new(ChunkType::from_str("ruSt").unwrap(), b"one".to_vec()));
    png.append_chunk(Chunk::new(ChunkType::from_str("teXt").unwrap(), b"mid".to_vec()));
    png.append_chunk(Chunk::new(ChunkType::from_str("ruSt").unwrap(), b"two".to_vec()));
    png.append_chunk(Chunk::new(ChunkType::from_str("IEND").unwrap(), vec![]));
    png
}

#[test]
fn chunk_by_type_finds_first() {
    let png = sample();
    assert_eq!(png.chunk_by_type("ruSt").unwrap().data(), b"one");
    assert!(png.chunk_by_type("abcd").is_none());
}

#[test]
fn remove_all_keeps_others_in_order() {
    let mut png = sample();
    png.remove_all("ruSt");
    let tags: Vec<[u8; 4]> = png.chunks().iter().map(|c| c.chunk_type().bytes()).collect();
    assert_eq!(tags, vec![*b"IHDR", *b"teXt", *b"IEND"]);
    assert!(png.chunk_by_type("ruSt").is_none());
}

#[test]
fn replace_chunk_goes_before_end() {
    let mut png = sample();
    png.replace_chunk("ruSt", b"new".to_vec()).unwrap();
    let tags: Vec<[u8; 4]> = png.chunks().iter().map(|c| c.chunk_type().bytes()).collect();
    assert_eq!(tags, vec![*b"IHDR", *b"teXt", *b"ruSt", *b"ruSt", *b"IEND"]);
    assert_eq!(png.chunks()[3].data(), b"new");
    assert_eq!(png.chunk_by_type("ruSt").unwrap().data(), b"two");
    assert_eq!(png.replace_chunk("ru1t", vec![]), Err(PngError::InvalidTag));
    assert_eq!(png.chunks().len(), 5);
}

#[test]
fn replace_chunk_without_end_appends() {
    let mut png = Png::try_from(&SIG[..]).unwrap();
    png.append_chunk(Chunk::new(ChunkType::from_str("IHDR").unwrap(), vec![1]));
    png.replace_chunk("ruSt", b"msg".to_vec()).unwrap();
    let tags: Vec<[u8; 4]> = png.chunks().iter().map(|c| c.chunk_type().bytes()).collect();
    assert_eq!(tags, vec![*b"IHDR", *b"ruSt"]);
    let mut empty = Png::try_from(&SIG[..]).unwrap();
    empty.replace_chunk("ruSt", b"msg".to_vec()).unwrap();
    assert_eq!(empty.chunks().len(), 1);
}

#[test]
fn later_bad_record_fails_with_its_kind() {
    let mut bytes = SIG.to_vec();
    bytes.extend(Chunk::new(ChunkType::from_str("IHDR").unwrap(), vec![1, 2]).as_bytes());
    let mut bad = Chunk::new(ChunkType::from_str("IEND").unwrap(), vec![]).as_bytes();
    bad.pop();
    bytes.extend(bad);
    assert!(matches!(Png::try_from(bytes.as_slice()), Err(PngError::TruncatedRecord)));
}

#[test]
fn remove_all_without_match_keeps_bytes() {
    let bytes = sample().as_bytes();
    let mut png = Png::try_from(bytes.as_slice()).unwrap();
    png.remove_all("abcd");
    assert_eq!(png.as_bytes(), bytes);
}
