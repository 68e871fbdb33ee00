use pngme::chunk::Chunk;
use pngme::chunk_type::ChunkType;
use pngme::error::PngError;

fn crc_of(bytes: &[u8]) -> u32 {
    crc::Crc::<u32>::new(&crc::CRC_32_ISO_HDLC).checksum(bytes)
}

fn rust_chunk() -> Chunk {
    let chunk_type = ChunkType::from_str("RuSt").unwrap();
    Chunk::new(chunk_type, vec![82, 117, 115, 116])
}

#[test]
fn test_new_chunk() {
    let chunk_type = ChunkType::from_str("RuSt").unwrap();
    let data = vec![82, 117, 115, 116];
    let chunk = Chunk::new(chunk_type, data);
    assert_eq!(chunk.length(), 4);
    // CRC-32 (ISO-HDLC) of the eight bytes "RuStRust".
    assert_eq!(chunk.crc(), 712841866);
}

#[test]
fn test_chunk_length() {
    let chunk_type = ChunkType::from_str("RuSt").unwrap();
    let data = vec![82, 117, 115, 116];
    let chunk = Chunk::new(chunk_type, data);
    assert_eq!(chunk.length(), 4);
}

#[test]
fn test_chunk_type() {
    let chunk_type = ChunkType::from_str("RuSt").unwrap();
    let data = vec![82, 117, 115, 116];
    let chunk = Chunk::new(chunk_type, data);
    assert_eq!(*chunk.chunk_type(), chunk_type);
}

#[test]
fn test_chunk_data() {
    let chunk_type = ChunkType::from_str("RuSt").unwrap();
    let data = vec![82, 117, 115, 116];
    let chunk = Chunk::new(chunk_type, data.clone());
    assert_eq!(chunk.data(), data.as_slice());
}

#[test]
fn test_chunk_crc() {
    let chunk_type = ChunkType::from_str("RuSt").unwrap();
    let data = vec![82, 117, 115, 116];
    let chunk = Chunk::new(chunk_type, data);
    // CRC-32 (ISO-HDLC) of the eight bytes "RuStRust".
    assert_eq!(chunk.crc(), 712841866);
}

#[test]
fn test_valid_chunk_from_bytes() {
    let data_length: u32 = 4;
    let chunk_type = ChunkType::from_str("RuSt").unwrap();
    let data = vec![82, 117, 115, 116];
    let crc = {
        let mut bytes = Vec::new();
        bytes.extend_from_slice(&chunk_type.bytes());
        bytes.extend_from_slice(&data);
        crc_of(&bytes)
    };

    let chunk_bytes = {
        let mut bytes = Vec::new();
        bytes.extend_from_slice(&data_length.to_be_bytes());
        bytes.extend_from_slice(&chunk_type.bytes());
        bytes.extend_from_slice(&data);
        bytes.extend_from_slice(&crc.to_be_bytes());
        bytes
    };

    let chunk = Chunk::try_from(chunk_bytes.as_slice()).unwrap();

    assert_eq!(chunk.length(), 4);
    assert_eq!(*chunk.chunk_type(), chunk_type);
    assert_eq!(chunk.data(), data.as_slice());
    assert_eq!(chunk.crc(), crc);
}

#[test]
fn test_invalid_chunk_from_bytes() {
    let data_length: u32 = 4;
    let chunk_type = ChunkType::from_str("RuSt").unwrap();
    let data = vec![82, 117, 115, 116];
    let crc = {
        let mut bytes = Vec::new();
        bytes.extend_from_slice(&chunk_type.bytes());
        bytes.extend_from_slice(&data);
        crc_of(&bytes)
    };

    let chunk_bytes = {
        let mut bytes = Vec::new();
        bytes.extend_from_slice(&data_length.to_be_bytes());
        bytes.extend_from_slice(&chunk_type.bytes());
        bytes.extend_from_slice(&data);
        bytes.extend_from_slice(&(crc + 1).to_be_bytes());
        bytes
    };

    let chunk = Chunk::try_from(chunk_bytes.as_slice());
    assert!(chunk.is_err());
}

#[test]
fn crc_of_rust_chunk() {
    assert_eq!(crc_of(b"123456789"), 0xCBF43926);
    assert_eq!(crc_of(b"RuStRust"), 712841866);
    assert_eq!(rust_chunk().crc(), 712841866);
    let message = b"This is where your secret message will be!".to_vec();
    let chunk = Chunk::new(ChunkType::from_str("RuSt").unwrap(), message);
    assert_eq!(chunk.crc(), 2882656334);
    let empty = Chunk::new(ChunkType::from_str("IEND").unwrap(), vec![]);
    assert_eq!(empty.crc(), 0xAE426082);
}

#[test]
fn serialized_layout() {
    let bytes = rust_chunk().as_bytes();
    assert_eq!(
        bytes,
        vec![0, 0, 0, 4, 82, 117, 83, 116, 82, 117, 115, 116, 0x2A, 0x7D, 0x1A, 0x8A]
    );
    assert_eq!(bytes.len(), 12 + 4);
}

#[test]
fn chunk_round_trip() {
    let payloads: Vec<Vec<u8>> = vec![vec![], vec![0], vec![255; 300], b"hello".to_vec()];
    for data in payloads {
        let chunk = Chunk::new(ChunkType::from_str("tEXt").unwrap(), data.clone());
        let back = Chunk::try_from(chunk.as_bytes().as_slice()).unwrap();
        assert_eq!(back, chunk);
        assert_eq!(back.data(), data.as_slice());
        assert_eq!(back.length() as usize, data.len());
    }
}

#[test]
fn every_bit_flip_is_caught() {
    let bytes = rust_chunk().as_bytes();
    for i in 8..bytes.len() {
        for k in 0..8 {
            let mut flipped = bytes.clone();
            flipped[i] ^= 1 << k;
            assert_eq!(Chunk::try_from(flipped.as_slice()), Err(PngError::ChecksumMismatch));
        }
    }
}

#[test]
fn short_and_truncated_input() {
    let bytes = rust_chunk().as_bytes();
    assert_eq!(Chunk::try_from(&bytes[..11]), Err(PngError::Truncated));
    assert_eq!(Chunk::try_from(&bytes[..15]), Err(PngError::Truncated));
    assert_eq!(Chunk::try_from(&[][..]), Err(PngError::Truncated));
    let mut long = bytes.clone();
    long[3] = 200;
    assert_eq!(Chunk::try_from(long.as_slice()), Err(PngError::Truncated));
}

#[test]
fn bad_type_in_input() {
    let mut bytes = rust_chunk().as_bytes();
    bytes[6] = b'_';
    assert_eq!(Chunk::try_from(bytes.as_slice()), Err(PngError::InvalidCharacters));
}

#[test]
fn trailing_bytes_after_one_chunk_are_ignored() {
    let mut bytes = rust_chunk().as_bytes();
    bytes.extend_from_slice(&[1, 2, 3]);
    assert_eq!(Chunk::try_from(bytes.as_slice()).unwrap(), rust_chunk());
}

#[test]
fn data_as_text() {
    assert_eq!(rust_chunk().data_as_string(), Ok("Rust".to_string()));
    let bad = Chunk::new(ChunkType::from_str("RuSt").unwrap(), vec![0xff, 0xfe]);
    assert_eq!(bad.data_as_string(), Err(PngError::NotUtf8));
}

#[test]
fn test_chunk_trait_impls() {
    let chunk_type = ChunkType::from_str("RuSt").unwrap();
    let data = vec![82, 117, 115, 116];
    let chunk = Chunk::new(chunk_type, data);
    let chunk_string = chunk.to_string();

    // CRC-32 (ISO-HDLC) of the eight bytes "RuStRust".
    let expected_chunk_string = format!(
        "Chunk {{ length: {}, type: {}, data: \"{}\", crc: {} }}",
        4, "RuSt", "Rust", 712841866
    );
    assert_eq!(chunk_string, expected_chunk_string);
}

#[test]
fn summary_of_binary_payload() {
    let chunk = Chunk::new(ChunkType::from_str("biNa").unwrap(), vec![0xff, 0, 10]);
    let expected = format!(
        "Chunk {{ length: 3, type: biNa, data: [255, 0, 10], crc: {} }}",
        crc_of(&[b'b', b'i', b'N', b'a', 0xff, 0, 10])
    );
    assert_eq!(chunk.to_string(), expected);
    let empty = Chunk::new(ChunkType::from_str("IEND").unwrap(), vec![]);
    assert_eq!(empty.to_string(), "Chunk { length: 0, type: IEND, data: \"\", crc: 2923585666 }");
    assert_eq!(String::from_utf8(empty.summary()).unwrap(), empty.to_string());
}
