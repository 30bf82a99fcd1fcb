use pngme::chunk::Chunk;
use pngme::chunk_type::ChunkType;
use pngme::commands::{chunk_from_strings, decode, encode, remove};
use pngme::error::PngError;
use pngme::png::Png;

const SIG: [u8; 8] = [137, 80, 78, 71, 13, 10, 26, 10];

fn chunk(tag: &str, data: &[u8]) -> Chunk {
    Chunk::new(ChunkType::from_text(tag).unwrap(), data.to_vec())
}

fn sample_file() -> Vec<u8> {
    let ihdr = [0, 0, 0, 1, 0, 0, 0, 1, 8, 2, 0, 0, 0];
    let png = Png::from_chunks(vec![
        chunk("IHDR", &ihdr),
        chunk("IDAT", &[1, 2, 3, 4]),
        chunk("IEND", &[]),
    ]);
    png.encode()
}

#[test]
fn signature_bytes() {
    assert_eq!(Png::signature(), SIG.to_vec());
}

#[test]
fn parse_then_encode_is_identity() {
    let bytes = sample_file();
    let png = Png::parse(&bytes).unwrap();
    assert_eq!(png.chunks().len(), 3);
    assert_eq!(png.encode(), bytes);
}

#[test]
fn parse_signature_only() {
    let png = Png::parse(&SIG).unwrap();
    assert_eq!(png.chunks().len(), 0);
    assert_eq!(png.encode(), SIG.to_vec());
}

#[test]
fn parse_rejects_bad_signature() {
    let mut bytes = sample_file();
    bytes[0] = 0;
    assert_eq!(Png::parse(&bytes).err(), Some(PngError::Format));
    assert_eq!(Png::parse(&SIG[..7]).err(), Some(PngError::Format));
}

#[test]
fn parse_rejects_truncated_and_corrupt() {
    let bytes = sample_file();
    assert_eq!(Png::parse(&bytes[..bytes.len() - 1]).err(), Some(PngError::Format));
    let mut bad = bytes.clone();
    bad[20] ^= 0x40;
    assert_eq!(Png::parse(&bad).err(), Some(PngError::Checksum));
}

#[test]
fn chunk_by_type_finds_first() {
    let mut png = Png::parse(&sample_file()).unwrap();
    png.append_chunk(chunk("teXt", b"one"));
    png.append_chunk(chunk("teXt", b"two"));
    assert_eq!(png.chunk_by_type("teXt").unwrap().data(), b"one");
    assert!(png.chunk_by_type("zzZz").is_none());
    assert_eq!(png.chunks().len(), 5);
}

#[test]
fn append_then_remove_restores_chunks() {
    let bytes = sample_file();
    let mut png = Png::parse(&bytes).unwrap();
    png.append_chunk(chunk("ruSt", b"hidden"));
    assert_eq!(png.remove_first_chunk("ruSt"), Ok(()));
    assert_eq!(png.encode(), bytes);
}

#[test]
fn remove_missing_is_not_found_and_keeps_chunks() {
    let bytes = sample_file();
    let mut png = Png::parse(&bytes).unwrap();
    assert_eq!(png.remove_first_chunk("ruSt"), Err(PngError::NotFound));
    assert_eq!(png.encode(), bytes);
}

#[test]
fn chunk_from_strings_builds_chunk() {
    let c = chunk_from_strings("ruSt", "hello").unwrap();
    assert_eq!(c.data(), b"hello");
    assert_eq!(c.chunk_type().bytes(), *b"ruSt");
    assert_eq!(chunk_from_strings("ru5t", "hello").err(), Some(PngError::Tag));
}

#[test]
fn encode_then_decode_message() {
    let file = encode(&sample_file(), "ruSt", "hello").unwrap();
    assert_eq!(decode(&file, "ruSt").unwrap(), "hello");
}

#[test]
fn decode_unknown_tag_is_not_found() {
    let file = encode(&sample_file(), "ruSt", "hello").unwrap();
    assert_eq!(decode(&file, "abCd"), Err(PngError::NotFound));
}

#[test]
fn remove_command() {
    let plain = sample_file();
    let file = encode(&plain, "ruSt", "hello").unwrap();
    assert_eq!(remove(&file, "ruSt").unwrap(), plain);
    assert_eq!(remove(&plain, "ruSt"), Err(PngError::NotFound));
}

#[test]
fn command_errors() {
    assert_eq!(encode(&sample_file(), "ru1t", "x"), Err(PngError::Tag));
    assert_eq!(encode(&[1, 2, 3], "ruSt", "x"), Err(PngError::Format));
    assert_eq!(decode(&[1, 2, 3], "ruSt"), Err(PngError::Format));
    let bad_text = Png::from_chunks(vec![chunk("ruSt", &[0xFF])]).encode();
    assert_eq!(decode(&bad_text, "ruSt"), Err(PngError::Encoding));
}

#[test]
fn encode_appends_only_new_frame() {
    let plain = sample_file();
    let file = encode(&plain, "ruSt", "hello").unwrap();
    assert_eq!(&file[..plain.len()], &plain[..]);
    assert_eq!(file[plain.len()..].to_vec(), chunk("ruSt", b"hello").encode());
}

#[test]
fn corrupt_hidden_message_is_checksum_error() {
    let plain = sample_file();
    let file = encode(&plain, "ruSt", "hello").unwrap();
    for i in plain.len() + 4..file.len() {
        let mut bad = file.clone();
        bad[i] ^= 0x20;
        assert_eq!(decode(&bad, "ruSt"), Err(PngError::Checksum), "byte {}", i);
    }
}
