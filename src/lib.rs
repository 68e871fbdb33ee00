//! Reading, checking, editing and writing PNG-style chunk streams.
//!
//! A stream is an eight-byte signature followed by chunks; each chunk is a
//! big-endian length, a four-letter type, the payload and a CRC-32 over the
//! type and payload.
pub mod bytes;
pub mod checksum;
pub mod error;
pub mod chunk_type;
pub mod chunk;
pub mod png;
pub mod text;
