//! A PNG chunk container codec: a typed, validated in-memory model of the
//! PNG chunk stream. It parses a byte buffer into structured chunks, supports
//! mutation of the chunk list (append, remove, lookup by type), and
//! re-serializes to bytes that round-trip exactly.

pub mod chunk;
pub mod chunk_type;
pub mod crc;
pub mod png;
