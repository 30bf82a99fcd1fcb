use pngme::chunk::Chunk;
use pngme::chunk_type::ChunkType;
use pngme::crc::checksum;
use pngme::error::PngError;

fn iend_frame() -> Vec<u8> {
    vec![0, 0, 0, 0, 73, 69, 78, 68, 0xAE, 0x42, 0x60, 0x82]
}

fn sample() -> Chunk {
    let t = ChunkType::from_text("RuSt").unwrap();
    Chunk::new(t, b"This is where your secret message will be!".to_vec())
}

#[test]
fn crc32_known_values() {
    assert_eq!(checksum(b""), 0);
    assert_eq!(checksum(b"123456789"), 0xCBF4_3926);
    assert_eq!(checksum(b"IEND"), 0xAE42_6082);
}

#[test]
fn new_chunk_fields() {
    let c = sample();
    assert_eq!(c.length(), 42);
    assert_eq!(c.chunk_type().bytes(), *b"RuSt");
    assert_eq!(c.data(), b"This is where your secret message will be!");
    assert_eq!(c.crc(), 2882656334);
}

#[test]
fn encode_iend_exact_bytes() {
    let c = Chunk::new(ChunkType::from_text("IEND").unwrap(), Vec::new());
    assert_eq!(c.encode(), iend_frame());
}

#[test]
fn decode_encode_keeps_crc() {
    let c = sample();
    let bytes = c.encode();
    let (d, used) = Chunk::decode(&bytes).unwrap();
    assert_eq!(used, bytes.len());
    assert_eq!(d.crc(), c.crc());
    assert_eq!(d.data(), c.data());
    assert_eq!(d.chunk_type(), c.chunk_type());
}

#[test]
fn decode_consumes_only_first_frame() {
    let mut bytes = iend_frame();
    bytes.extend_from_slice(&[1, 2, 3]);
    let (d, used) = Chunk::decode(&bytes).unwrap();
    assert_eq!(used, 12);
    assert_eq!(d.length(), 0);
}

#[test]
fn decode_single_byte_change_is_checksum_error() {
    let bytes = sample().encode();
    for i in 4..bytes.len() {
        let mut bad = bytes.clone();
        bad[i] ^= 0x01;
        assert_eq!(Chunk::decode(&bad).err(), Some(PngError::Checksum), "byte {}", i);
    }
}

#[test]
fn decode_short_input_is_format_error() {
    assert_eq!(Chunk::decode(&[]).err(), Some(PngError::Format));
    assert_eq!(Chunk::decode(&iend_frame()[..11]).err(), Some(PngError::Format));
}

#[test]
fn decode_length_overrun_is_format_error() {
    let mut bytes = sample().encode();
    bytes.pop();
    assert_eq!(Chunk::decode(&bytes).err(), Some(PngError::Format));
    let huge = vec![0xFF, 0xFF, 0xFF, 0xFF, 73, 69, 78, 68, 0, 0, 0, 0];
    assert_eq!(Chunk::decode(&huge).err(), Some(PngError::Format));
}

#[test]
fn data_as_text_valid_and_invalid() {
    assert_eq!(
        sample().data_as_text().unwrap(),
        "This is where your secret message will be!"
    );
    let t = ChunkType::from_text("ruSt").unwrap();
    let c = Chunk::new(t, vec![0xC3, 0xA9]);
    assert_eq!(c.data_as_text().unwrap(), "é");
    let c = Chunk::new(t, vec![0xFF, 0x41]);
    assert_eq!(c.data_as_text(), Err(PngError::Encoding));
}
