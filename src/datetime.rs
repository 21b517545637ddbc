//! Timestamps as RFC 3339 text, through chrono.
use vstd::prelude::*;
use crate::wire::valid_utf8;

verus! {

/// The UTF-8 bytes of chrono's RFC 3339 form of a UTC time given in Unix seconds.
pub uninterp spec fn rfc3339_text(secs: u32) -> Seq<u8>;

/// Relies on chrono's `DateTime::from_timestamp` (every `u32` second count is in
/// its range) and `to_rfc3339`, which returns a `String`, hence UTF-8.
#[verifier::external_body]
pub(crate) fn rfc3339_of(secs: u32) -> (r: Vec<u8>)
    ensures
        r@ == rfc3339_text(secs),
        valid_utf8(r@),
{
    let dt = chrono::DateTime::from_timestamp(secs as i64, 0).unwrap();
    dt.to_rfc3339().into_bytes()
}

} // verus!
