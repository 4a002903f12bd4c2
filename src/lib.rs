//! A compact binary format for JSON-like values: one tag byte per value,
//! base-128 varints for lengths and counts, big-endian doubles.
pub mod decode;
pub mod encode;
pub mod error;
pub mod laws;
pub mod value;
pub mod varint;

pub use decode::{decode, read_from, MAX_DEPTH};
pub use encode::{encode, serialize_to, write_str};
pub use error::DecodeError;
pub use value::{JValue, SpecValue};
pub use varint::{decode_varint, encode_varint, read_length, write_length};
