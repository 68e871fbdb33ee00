use pngme::chunk::Chunk;
use pngme::chunk_type::ChunkType;
use pngme::error::PngError;
use pngme::png::Png;

fn chunk(text: &str, data: &[u8]) -> Chunk {
    Chunk::new(ChunkType::from_str(text).unwrap(), data.to_vec())
}

#[test]
fn test_new_png_from_chunks() {
    let chunk_type = ChunkType::from_str("RuSt").unwrap();
    let data = vec![82, 117, 115, 116];
    let chunk = Chunk::new(chunk_type, data);
    let chunks = vec![chunk];
    let png = Png::from_chunks(chunks);
    assert_eq!(png.chunks().len(), 1);
}

#[test]
fn test_append_chunk() {
    let chunk_type = ChunkType::from_str("RuSt").unwrap();
    let data = vec![82, 117, 115, 116];
    let chunk = Chunk::new(chunk_type, data);
    let mut png = Png::from_chunks(vec![]);
    png.append_chunk(chunk);
    assert_eq!(png.chunks().len(), 1);
}

#[test]
fn test_remove_first_chunk() {
    let chunk_type = ChunkType::from_str("RuSt").unwrap();
    let data = vec![82, 117, 115, 116];
    let chunk = Chunk::new(chunk_type, data);
    let mut png = Png::from_chunks(vec![chunk.clone()]);
    let removed_chunk = png.remove_first_chunk("RuSt").unwrap();
    assert_eq!(removed_chunk, chunk);
    assert_eq!(png.chunks().len(), 0);
}

#[test]
fn test_header() {
    let png = Png::from_chunks(vec![]);
    assert_eq!(png.header(), &Png::STANDARD_HEADER);
}

#[test]
fn test_chunks() {
    let chunk_type = ChunkType::from_str("RuSt").unwrap();
    let data = vec![82, 117, 115, 116];
    let chunk = Chunk::new(chunk_type, data);
    let chunks = vec![chunk];
    let png = Png::from_chunks(chunks);
    assert_eq!(png.chunks().len(), 1);
}

#[test]
fn test_chunk_by_type() {
    let chunk_type = ChunkType::from_str("RuSt").unwrap();
    let data = vec![82, 117, 115, 116];
    let chunk = Chunk::new(chunk_type, data);
    let chunks = vec![chunk];
    let png = Png::from_chunks(chunks);
    let found_chunk = png.chunk_by_type("RuSt").unwrap();
    assert_eq!(*found_chunk.chunk_type(), chunk_type);
}

#[test]
fn test_png_as_bytes() {
    let chunk_type = ChunkType::from_str("RuSt").unwrap();
    let data = vec![82, 117, 115, 116];
    let chunk = Chunk::new(chunk_type, data);
    let chunks = vec![chunk];
    let png = Png::from_chunks(chunks);
    let bytes = png.as_bytes();
    assert!(bytes.len() > 8);
}

#[test]
fn test_png_from_bytes() {
    let chunk_type = ChunkType::from_str("RuSt").unwrap();
    let data = vec![82, 117, 115, 116];
    let chunk = Chunk::new(chunk_type, data);
    let chunks = vec![chunk];
    let png = Png::from_chunks(chunks);
    let bytes = png.as_bytes();
    let new_png = Png::try_from(bytes.as_slice()).unwrap();
    assert_eq!(new_png.chunks().len(), 1);
}

#[test]
fn one_chunk_round_trip() {
    let original = chunk("RuSt", b"Rust");
    let png = Png::from_chunks(vec![original.clone()]);
    let back = Png::try_from(png.as_bytes().as_slice()).unwrap();
    assert_eq!(back.chunks().len(), 1);
    assert_eq!(back.chunks()[0], original);
    assert_eq!(back.chunks()[0].crc(), original.crc());
    assert_eq!(back.header(), &Png::STANDARD_HEADER);
}

#[test]
fn many_chunks_round_trip_in_order() {
    let chunks = vec![chunk("IHDR", &[1, 2, 3]), chunk("tEXt", b""), chunk("IHDR", b"second")];
    let png = Png::from_chunks(chunks.clone());
    let bytes = png.as_bytes();
    assert_eq!(bytes.len(), 8 + 15 + 12 + 18);
    assert_eq!(&bytes[..8], &Png::STANDARD_HEADER);
    let back = Png::try_from(bytes.as_slice()).unwrap();
    assert_eq!(back.chunks(), chunks.as_slice());
    assert_eq!(back.as_bytes(), bytes);
}

#[test]
fn signature_only_gives_no_chunks() {
    let png = Png::try_from(&Png::STANDARD_HEADER[..]).unwrap();
    assert_eq!(png.chunks().len(), 0);
}

#[test]
fn seven_bytes_is_bad_header() {
    assert_eq!(Png::try_from(&Png::STANDARD_HEADER[..7]).err(), Some(PngError::BadHeader));
    assert_eq!(Png::try_from(&[][..]).err(), Some(PngError::BadHeader));
}

#[test]
fn wrong_signature_is_bad_header() {
    let mut bytes = Png::from_chunks(vec![chunk("RuSt", b"x")]).as_bytes();
    bytes[1] = b'Q';
    assert_eq!(Png::try_from(bytes.as_slice()).err(), Some(PngError::BadHeader));
}

#[test]
fn chunk_error_aborts_whole_parse() {
    let mut bytes = Png::from_chunks(vec![chunk("RuSt", b"a"), chunk("RuSt", b"b")]).as_bytes();
    let last = bytes.len() - 1;
    bytes[last] ^= 1;
    assert_eq!(Png::try_from(bytes.as_slice()).err(), Some(PngError::ChecksumMismatch));
}

#[test]
fn trailing_garbage_is_rejected() {
    let mut bytes = Png::from_chunks(vec![chunk("RuSt", b"a")]).as_bytes();
    bytes.extend_from_slice(&[0, 0, 0]);
    assert_eq!(Png::try_from(bytes.as_slice()).err(), Some(PngError::Truncated));
}

#[test]
fn remove_first_of_several() {
    let a = chunk("RuSt", b"first");
    let b = chunk("teXt", b"other");
    let c = chunk("RuSt", b"second");
    let mut png = Png::from_chunks(vec![a.clone(), b.clone(), c.clone()]);
    assert_eq!(png.remove_first_chunk("RuSt"), Ok(a));
    assert_eq!(png.chunks(), &[b.clone(), c.clone()][..]);
    assert_eq!(png.chunk_by_type("RuSt"), Some(&c));
}

#[test]
fn remove_missing_leaves_chunks() {
    let mut png = Png::from_chunks(vec![chunk("RuSt", b"x"), chunk("teXt", b"y")]);
    let before = png.as_bytes();
    assert_eq!(png.remove_first_chunk("abCd"), Err(PngError::NotFound));
    assert_eq!(png.chunks().len(), 2);
    assert_eq!(png.remove_first_chunk("ab"), Err(PngError::WrongLength));
    assert_eq!(png.remove_first_chunk("ab1d"), Err(PngError::InvalidCharacters));
    assert_eq!(png.as_bytes(), before);
}

#[test]
fn lookup_misses_are_none() {
    let png = Png::from_chunks(vec![chunk("RuSt", b"x")]);
    assert!(png.chunk_by_type("abCd").is_none());
    assert!(png.chunk_by_type("toolong").is_none());
    assert!(png.chunk_by_type("Ru5t").is_none());
}

#[test]
fn append_keeps_order() {
    let mut png = Png::from_chunks(vec![chunk("AAAA", b"1")]);
    png.append_chunk(chunk("BBBB", b"2"));
    png.append_chunk(chunk("CCCC", b"3"));
    let texts: Vec<String> = png.chunks().iter().map(|c| c.chunk_type().to_string()).collect();
    assert_eq!(texts, vec!["AAAA", "BBBB", "CCCC"]);
}

#[test]
fn test_png_display() {
    let chunk_type = ChunkType::from_str("RuSt").unwrap();
    let data = vec![82, 117, 115, 116];
    let chunk = Chunk::new(chunk_type, data);
    let chunks = vec![chunk];
    let png = Png::from_chunks(chunks);
    let png_string = png.to_string();
    assert!(png_string.contains("PNG File:"));
}

#[test]
fn png_description_lines() {
    let a = chunk("RuSt", b"Rust");
    let b = chunk("biNa", &[200]);
    let png = Png::from_chunks(vec![a.clone(), b.clone()]);
    let expected = format!(
        "PNG File:\n  Header: [137, 80, 78, 71, 13, 10, 26, 10]\n  Chunks:\n    {}\n    {}\n",
        a.to_string(),
        b.to_string()
    );
    assert_eq!(png.to_string(), expected);
    assert_eq!(
        Png::from_chunks(vec![]).to_string(),
        "PNG File:\n  Header: [137, 80, 78, 71, 13, 10, 26, 10]\n  Chunks:\n"
    );
}
