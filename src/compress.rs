//! zlib streams, through flate2.
use vstd::prelude::*;
use std::io::Read;
use std::io::Write;

verus! {

/// What flate2's zlib decoder yields on a stream: the inflated bytes, or
/// `None` where the stream is malformed or cut short.
pub uninterp spec fn zlib_inflated(c: Seq<u8>) -> Option<Seq<u8>>;

/// What flate2's zlib encoder at the default level yields on some bytes.
pub uninterp spec fn zlib_deflated(b: Seq<u8>) -> Seq<u8>;

/// Relies on flate2's `ZlibDecoder` read to the end: it yields the inflated
/// bytes of a well-formed stream and an error on any other input.
#[verifier::external_body]
pub(crate) fn inflate(c: &Vec<u8>) -> (r: Option<Vec<u8>>)
    ensures
        match r {
            Some(out) => zlib_inflated(c@) == Some(out@),
            None => zlib_inflated(c@) is None,
        },
{
    let mut decoder = flate2::read::ZlibDecoder::new(&c[..]);
    let mut out = Vec::new();
    match decoder.read_to_end(&mut out) {
        Ok(_) => Some(out),
        Err(_) => None,
    }
}

/// Relies on flate2's `ZlibEncoder` over a `Vec` at the default level: writing
/// to memory does not fail, and the stream it finishes inflates back to its
/// input.
#[verifier::external_body]
pub(crate) fn deflate(b: &Vec<u8>) -> (r: Vec<u8>)
    ensures
        r@ == zlib_deflated(b@),
        zlib_inflated(r@) == Some(b@),
{
    let mut encoder = flate2::write::ZlibEncoder::new(Vec::new(), flate2::Compression::default());
    encoder.write_all(b).unwrap();
    encoder.finish().unwrap()
}

} // verus!
