//! Whole-buffer entry points: bytes in, a value out, and back.
use vstd::prelude::*;
use crate::error::CodecError;
use crate::value::{Value, Tree};
use crate::protocol::BinaryProtocol;
use crate::decode::DEFAULT_MAX_DEPTH;
use crate::wire::{parse, encodable, encoding, compressed_encoding, maps_unique};
use crate::laws::lemma_decoded_maps_unique;
use crate::compress::{zlib_deflated, zlib_inflated};

verus! {

/// Decodes the value at the start of `bytes`, with at most `max_depth` levels
/// of containers and compressed blocks below the top; bytes after it are ignored.
pub fn decode_with_limit(bytes: Vec<u8>, max_depth: usize) -> (r: Result<Value, CodecError>)
    ensures
        match r {
            Ok(v) => maps_unique(v@) && exists|e: nat| parse(bytes@, 0, max_depth as nat) == Ok::<(Tree, nat), CodecError>(
                (v@, e),
            ),
            Err(e) => parse(bytes@, 0, max_depth as nat) == Err::<(Tree, nat), CodecError>(e),
        },
{
    let mut protocol = BinaryProtocol::new();
    protocol.set_buffer(bytes);
    let r = protocol.read_value_limited(max_depth);
    proof {
        lemma_decoded_maps_unique(bytes@, 0, max_depth as nat);
    }
    r
}

/// Decodes the value at the start of `bytes`, with at most
/// `DEFAULT_MAX_DEPTH` levels of containers below the top.
pub fn decode_to_value(bytes: Vec<u8>) -> (r: Result<Value, CodecError>)
    ensures
        match r {
            Ok(v) => maps_unique(v@) && exists|e: nat| parse(bytes@, 0, DEFAULT_MAX_DEPTH as nat) == Ok::<
                (Tree, nat),
                CodecError,
            >((v@, e)),
            Err(e) => parse(bytes@, 0, DEFAULT_MAX_DEPTH as nat) == Err::<(Tree, nat), CodecError>(e),
        },
{
    decode_with_limit(bytes, DEFAULT_MAX_DEPTH)
}

/// The canonical encoding of a value, or `ValueTooLarge` where a text, array
/// or map in it is longer than 65535.
pub fn encode_value(value: &Value) -> (r: Result<Vec<u8>, CodecError>)
    ensures
        match r {
            Ok(b) => encodable(value@) && b@ == encoding(value@),
            Err(e) => e == CodecError::ValueTooLarge && !encodable(value@),
        },
{
    let mut protocol = BinaryProtocol::new();
    protocol.encode_json(value)
}

/// A value encoded as one compressed block.
pub fn encode_compressed(value: &Value) -> (r: Result<Vec<u8>, CodecError>)
    ensures
        match r {
            Ok(b) => encodable(value@) && zlib_deflated(encoding(value@)).len() <= 0xFFFF_FFFF
                && zlib_inflated(zlib_deflated(encoding(value@))) == Some(encoding(value@))
                && b@ == compressed_encoding(zlib_deflated(encoding(value@))),
            Err(e) => e == CodecError::ValueTooLarge && (!encodable(value@) || zlib_deflated(
                encoding(value@),
            ).len() > 0xFFFF_FFFF),
        },
{
    let mut protocol = BinaryProtocol::new();
    protocol.write_compressed(value)?;
    proof {
        assert(protocol.bytes() =~= compressed_encoding(zlib_deflated(encoding(value@))));
    }
    Ok(protocol.get_buffer())
}

} // verus!
