//! The one-byte type tags that open every encoded value.
use vstd::prelude::*;

verus! {

pub const TYPE_PASS: u8 = 0x01;
pub const TYPE_BOOLEAN_FALSE: u8 = 0x02;
pub const TYPE_BOOLEAN_TRUE: u8 = 0x03;
/// Unsigned integers of 1, 2 and 4 bytes.
pub const TYPE_U1: u8 = 0x10;
pub const TYPE_U2: u8 = 0x12;
pub const TYPE_U4: u8 = 0x14;
/// Signed integers of 1, 2, 4 and 8 bytes.
pub const TYPE_S1: u8 = 0x11;
pub const TYPE_S2: u8 = 0x13;
pub const TYPE_S4: u8 = 0x15;
pub const TYPE_S8: u8 = 0x16;
/// Unsigned integer of 8 bytes.
pub const TYPE_U8: u8 = 0x17;
/// IEEE-754 single and double precision.
pub const TYPE_FLOAT: u8 = 0x20;
pub const TYPE_DOUBLE: u8 = 0x21;
/// Text with a 1-byte and with a 2-byte length.
pub const TYPE_STRING: u8 = 0x30;
pub const TYPE_LONG_STRING: u8 = 0x31;
/// Byte runs with a 1-, 2- and 4-byte length.
pub const TYPE_BINARY_DATA_U1: u8 = 0x33;
pub const TYPE_BINARY_DATA_U2: u8 = 0x34;
pub const TYPE_BINARY_DATA_U4: u8 = 0x35;
/// Unix time in seconds, 4 bytes.
pub const TYPE_DATETIME: u8 = 0x40;
pub const TYPE_NULL: u8 = 0x41;
/// Arrays with a 1-byte and with a 2-byte element count.
pub const TYPE_ARRAY: u8 = 0x50;
pub const TYPE_LONG_ARRAY: u8 = 0x51;
/// Maps with a 1-byte and with a 2-byte entry count.
pub const TYPE_MAP: u8 = 0x60;
pub const TYPE_LONG_MAP: u8 = 0x61;
/// A marker byte and a byte run holding a zlib stream of one encoded value.
pub const TYPE_COMPRESSED: u8 = 0x67;

/// The marker byte written after the compressed tag; its meaning is not known,
/// and a reader ignores it.
pub const COMPRESSED_MARKER: u8 = 1;

} // verus!
