//! Reading, editing and writing the chunk stream of PNG files, so that short
//! text messages can be hidden in (and recovered from) ancillary chunks.

pub mod chunk;
pub mod chunk_type;
pub mod commands;
pub mod crc;
pub mod error;
pub mod png;
