//! The ways a decode or an encode can fail.
use vstd::prelude::*;

verus! {

#[derive(Debug, Clone, Copy, PartialEq, Eq, Structural)]
pub enum CodecError {
    /// The input ended in the middle of a value.
    Truncated,
    /// A text payload is not valid UTF-8.
    InvalidEncoding,
    /// A tag byte that the format does not define.
    UnknownType(u8),
    /// A length or a count beyond what the chosen tier can frame.
    ValueTooLarge,
    /// A compressed block whose payload does not inflate.
    DecompressionFailed,
    /// Containers nested deeper than the decoder's limit.
    DepthExceeded,
    /// A decoded value that does not have the shape a caller asked for.
    SchemaMismatch,
}

impl CodecError {
    /// A short description of the error.
    pub fn message(&self) -> (r: &'static str) {
        match self {
            CodecError::Truncated => "input ended in the middle of a value",
            CodecError::InvalidEncoding => "text is not valid UTF-8",
            CodecError::UnknownType(_) => "unknown type tag",
            CodecError::ValueTooLarge => "value too large for its length prefix",
            CodecError::DecompressionFailed => "compressed block does not inflate",
            CodecError::DepthExceeded => "values nested too deeply",
            CodecError::SchemaMismatch => "decoded value does not fit the requested shape",
        }
    }
}

} // verus!
