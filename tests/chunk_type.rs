use pngme::chunk_type::ChunkType;
use pngme::error::PngError;
use std::convert::TryFrom;
use std::str::FromStr;

#[test]
pub fn test_chunk_type_from_bytes() {
    let expected = [82, 117, 83, 116];
    let actual = ChunkType::try_from([82, 117, 83, 116]).unwrap();

    assert_eq!(expected, actual.bytes());
}

#[test]
pub fn test_chunk_type_from_str() {
    let expected = ChunkType::try_from([82, 117, 83, 116]).unwrap();
    let actual = ChunkType::from_str("RuSt").unwrap();
    assert_eq!(expected, actual);
}

#[test]
pub fn test_chunk_type_is_critical() {
    let chunk = ChunkType::from_str("RuSt").unwrap();
    assert!(chunk.is_critical());
}

#[test]
pub fn test_chunk_type_is_not_critical() {
    let chunk = ChunkType::from_str("ruSt").unwrap();
    assert!(!chunk.is_critical());
}

#[test]
pub fn test_chunk_type_is_public() {
    let chunk = ChunkType::from_str("RUSt").unwrap();
    assert!(chunk.is_public());
}

#[test]
pub fn test_chunk_type_is_not_public() {
    let chunk = ChunkType::from_str("RuSt").unwrap();
    assert!(!chunk.is_public());
}

#[test]
pub fn test_chunk_type_is_reserved_bit_valid() {
    let chunk = ChunkType::from_str("RuSt").unwrap();
    assert!(chunk.is_reserved_bit_valid());
}

#[test]
pub fn test_chunk_type_is_reserved_bit_invalid() {
    let chunk = ChunkType::from_str("Rust").unwrap();
    assert!(!chunk.is_reserved_bit_valid());
}

#[test]
pub fn test_chunk_type_is_safe_to_copy() {
    let chunk = ChunkType::from_str("RuSt").unwrap();
    assert!(chunk.is_safe_to_copy());
}

#[test]
pub fn test_chunk_type_is_unsafe_to_copy() {
    let chunk = ChunkType::from_str("RuST").unwrap();
    assert!(!chunk.is_safe_to_copy());
}

#[test]
pub fn test_valid_chunk_is_valid() {
    let chunk = ChunkType::from_str("RuSt").unwrap();
    assert!(chunk.is_valid());
}

#[test]
pub fn test_invalid_chunk_is_valid() {
    let chunk = ChunkType::from_str("Rust").unwrap();
    assert!(!chunk.is_valid());

    let chunk = ChunkType::from_str("Ru1t");
    assert!(chunk.is_err());
}

#[test]
pub fn test_chunk_type_string() {
    let chunk = ChunkType::from_str("RuSt").unwrap();
    assert_eq!(&chunk.to_string().unwrap(), "RuSt");
}

#[test]
pub fn test_chunk_type_trait_impls() {
    let chunk_type_1: ChunkType = TryFrom::try_from([82, 117, 83, 116]).unwrap();
    let chunk_type_2: ChunkType = FromStr::from_str("RuSt").unwrap();
    let _chunk_string = chunk_type_1.to_string();
    let _are_chunks_equal = chunk_type_1 == chunk_type_2;
}

#[test]
fn bit_semantics_of_rust_tags() {
    let t = ChunkType::from_text("RuSt").unwrap();
    assert!(t.is_critical());
    assert!(!t.is_public());
    assert!(t.is_reserved_bit_valid());
    assert!(t.is_safe_to_copy());
    assert!(!ChunkType::from_text("ruSt").unwrap().is_critical());
    let t = ChunkType::from_text("Rust").unwrap();
    assert!(!t.is_reserved_bit_valid());
    assert!(!t.is_valid());
    assert!(!ChunkType::from_text("RuST").unwrap().is_safe_to_copy());
}

#[test]
fn from_text_rejects_wrong_length() {
    assert_eq!(ChunkType::from_text("RuS"), Err(PngError::Tag));
    assert_eq!(ChunkType::from_text("RuStx"), Err(PngError::Tag));
    assert_eq!(ChunkType::from_text(""), Err(PngError::Tag));
}

#[test]
fn from_text_rejects_every_non_letter_byte() {
    for b in 0u8..128 {
        let text = format!("Ru{}t", b as char);
        let r = ChunkType::from_text(&text);
        if b.is_ascii_alphabetic() {
            assert_eq!(r.unwrap().bytes(), [b'R', b'u', b, b't']);
        } else {
            assert_eq!(r, Err(PngError::Tag));
        }
    }
    assert_eq!(ChunkType::from_text("Ru[t"), Err(PngError::Tag));
    assert_eq!(ChunkType::from_text("@uSt"), Err(PngError::Tag));
    assert_eq!(ChunkType::from_text("RuS{"), Err(PngError::Tag));
    assert_eq!(ChunkType::from_text("Ruét"), Err(PngError::Tag));
}

#[test]
fn from_bytes_keeps_raw_bytes() {
    let t = ChunkType::from_bytes([1, 2, 255, 0]);
    assert_eq!(t.bytes(), [1, 2, 255, 0]);
    assert_eq!(t.to_string(), Err(PngError::Encoding));
}

#[test]
fn matches_text_compares_bytes() {
    let t = ChunkType::from_text("ruSt").unwrap();
    assert!(t.matches_text("ruSt"));
    assert!(!t.matches_text("RuSt"));
    assert!(!t.matches_text("ruS"));
}

#[test]
fn from_str_boundaries() {
    assert_eq!(ChunkType::from_str("AZaz").unwrap().bytes(), [65, 90, 97, 122]);
    for s in ["Ru@t", "Ru[t", "Ru`t", "Ru{t", "Ru t", "Ru-t", "RuS", "RuStx", ""] {
        assert_eq!(ChunkType::from_str(s), Err(PngError::Tag), "{}", s);
    }
}

#[test]
fn try_from_keeps_any_bytes() {
    let t = ChunkType::try_from([0, 200, 91, 7]).unwrap();
    assert_eq!(t.bytes(), [0, 200, 91, 7]);
}
