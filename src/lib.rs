//! Binary value codec for the game client's transport format: a tagged,
//! length-prefixed, big-endian encoding of null, booleans, numbers, text,
//! byte runs, timestamps, arrays, maps and deflate-compressed sub-documents.
pub mod tags;
pub mod error;
pub mod value;
pub mod wire;
pub mod compress;
pub mod datetime;
pub mod protocol;
pub mod text;
pub mod decode;
pub mod encode;
pub mod codec;
pub mod laws;
pub mod config;
pub mod extractor;

pub use crate::codec::{decode_to_value, decode_with_limit, encode_value, encode_compressed};
pub use crate::value::{Value, Number};
pub use crate::error::CodecError;
pub use crate::protocol::BinaryProtocol;
pub use crate::config::Config;
pub use crate::extractor::BinaryRequest;

