//! The wire format as mathematics: what bytes encode a tree, and what a
//! sequence of bytes decodes to.
use vstd::prelude::*;
use crate::tags;
use crate::error::CodecError;
use crate::value::{Tree, finite_bits, keys_unique};
use crate::compress::zlib_inflated;
use crate::datetime::rfc3339_text;

verus! {

// ---- fixed-width big-endian integers ----

pub open spec fn be2(s: Seq<u8>) -> nat {
    (s[0] as nat) * 256 + (s[1] as nat)
}

pub open spec fn be4(s: Seq<u8>) -> nat {
    be2(s.subrange(0, 2)) * 0x1_0000 + be2(s.subrange(2, 4))
}

pub open spec fn be8(s: Seq<u8>) -> nat {
    be4(s.subrange(0, 4)) * 0x1_0000_0000 + be4(s.subrange(4, 8))
}

pub open spec fn bytes2(v: nat) -> Seq<u8> {
    seq![(v / 256) as u8, (v % 256) as u8]
}

pub open spec fn bytes4(v: nat) -> Seq<u8> {
    bytes2(v / 0x1_0000) + bytes2(v % 0x1_0000)
}

pub open spec fn bytes8(v: nat) -> Seq<u8> {
    bytes4(v / 0x1_0000_0000) + bytes4(v % 0x1_0000_0000)
}

/// The two's-complement pattern of `v` in a width whose range has `m` values.
pub open spec fn twos(v: int, m: nat) -> nat {
    if v < 0 { (v + m) as nat } else { v as nat }
}

/// The signed value of the pattern `u` in a width whose range has `m` values.
pub open spec fn signed_of(u: nat, m: nat) -> int {
    if u < m / 2 { u as int } else { u - m }
}

/// `n` with its trailing zero bits removed.
pub open spec fn odd_part(n: nat) -> nat
    decreases n,
{
    if n == 0 || n % 2 == 1 {
        n
    } else {
        odd_part(n / 2)
    }
}

/// A double holds `v` exactly: `|v| = m * 2^e` for some `m <= 2^53` and `e >= 0`,
/// that is, `|v|` without its trailing zero bits is at most 2^53.
pub open spec fn double_exact(v: int) -> bool {
    odd_part((if v < 0 { -v } else { v }) as nat) <= pow2_53()
}

pub open spec fn pow2_53() -> int {
    0x20_0000_0000_0000
}

// ---- UTF-8 ----

pub open spec fn is_cont(b: u8) -> bool {
    0x80 <= b <= 0xBF
}

/// The length of the well-formed UTF-8 sequence at the start of `s`, or 0 if
/// none starts there (RFC 3629: no overlong forms, no surrogates, at most U+10FFFF).
pub open spec fn utf8_width(s: Seq<u8>) -> nat {
    if s.len() == 0 {
        0
    } else {
        let b0 = s[0];
        if b0 <= 0x7F {
            1
        } else if 0xC2 <= b0 <= 0xDF {
            if s.len() >= 2 && is_cont(s[1]) { 2 } else { 0 }
        } else if 0xE0 <= b0 <= 0xEF {
            if s.len() >= 3 && is_cont(s[1]) && is_cont(s[2]) && (b0 != 0xE0 || s[1] >= 0xA0)
                && (b0 != 0xED || s[1] <= 0x9F) {
                3
            } else {
                0
            }
        } else if 0xF0 <= b0 <= 0xF4 {
            if s.len() >= 4 && is_cont(s[1]) && is_cont(s[2]) && is_cont(s[3]) && (b0 != 0xF0
                || s[1] >= 0x90) && (b0 != 0xF4 || s[1] <= 0x8F) {
                4
            } else {
                0
            }
        } else {
            0
        }
    }
}

/// `s` is well-formed UTF-8.
pub open spec fn valid_utf8(s: Seq<u8>) -> bool
    decreases s.len(),
{
    if s.len() == 0 {
        true
    } else {
        let w = utf8_width(s);
        w > 0 && valid_utf8(s.subrange(w as int, s.len() as int))
    }
}

// ---- text forms of numbers ----

/// The decimal digits of `n`, in ASCII, without leading zeros.
pub open spec fn digits(n: nat) -> Seq<u8>
    decreases n,
{
    if n < 10 {
        seq![(48 + n) as u8]
    } else {
        digits(n / 10).push((48 + n % 10) as u8)
    }
}

/// The decimal text of an integer, with a leading `-` when negative.
pub open spec fn decimal(v: int) -> Seq<u8> {
    if v < 0 {
        seq![45u8] + digits((-v) as nat)
    } else {
        digits(v as nat)
    }
}

// ---- the model's limits ----

pub open spec fn in_int_range(i: int) -> bool {
    -0x8000_0000_0000_0000 <= i <= 0xFFFF_FFFF_FFFF_FFFF
}

/// Every length and count in the tree fits the widest tier the encoder frames
/// it with (65535), so encoding succeeds.
pub open spec fn encodable(t: Tree) -> bool
    decreases t,
{
    match t {
        Tree::Text(s) => s.len() <= 0xFFFF,
        Tree::Array(a) => a.len() <= 0xFFFF && forall|i: int| 0 <= i < a.len() ==> encodable(#[trigger] a[i]),
        Tree::Object(m) => m.len() <= 0xFFFF && forall|i: int|
            0 <= i < m.len() ==> encodable((#[trigger] m[i]).0) && encodable(m[i].1),
        _ => true,
    }
}

/// Containers nest at most `d` deep.
pub open spec fn fits_depth(t: Tree, d: nat) -> bool
    decreases t,
{
    match t {
        Tree::Array(a) => d > 0 && forall|i: int| 0 <= i < a.len() ==> fits_depth(#[trigger] a[i], (d - 1) as nat),
        Tree::Object(m) => d > 0 && forall|i: int|
            0 <= i < m.len() ==> fits_depth((#[trigger] m[i]).0, (d - 1) as nat) && fits_depth(m[i].1, (d - 1) as nat),
        _ => true,
    }
}

/// Every integer in the tree is held exactly by a double.
pub open spec fn exact_ints(t: Tree) -> bool
    decreases t,
{
    match t {
        Tree::Int(i) => double_exact(i),
        Tree::Array(a) => forall|i: int| 0 <= i < a.len() ==> exact_ints(#[trigger] a[i]),
        Tree::Object(m) => forall|i: int| 0 <= i < m.len() ==> exact_ints((#[trigger] m[i]).0) && exact_ints(m[i].1),
        _ => true,
    }
}

// ---- encoding ----

/// The narrowest integer form: the signed ladder first, then 8-byte unsigned.
pub open spec fn int_encoding(i: int) -> Seq<u8> {
    if -0x80 <= i < 0x80 {
        seq![tags::TYPE_S1, twos(i, 0x100) as u8]
    } else if -0x8000 <= i < 0x8000 {
        seq![tags::TYPE_S2] + bytes2(twos(i, 0x1_0000))
    } else if -0x8000_0000 <= i < 0x8000_0000 {
        seq![tags::TYPE_S4] + bytes4(twos(i, 0x1_0000_0000))
    } else if -0x8000_0000_0000_0000 <= i < 0x8000_0000_0000_0000 {
        seq![tags::TYPE_S8] + bytes8(twos(i, 0x1_0000_0000_0000_0000))
    } else {
        seq![tags::TYPE_U8] + bytes8(i as nat)
    }
}

/// Text with a 1-byte length up to 255 bytes, else with a 2-byte length.
pub open spec fn text_encoding(t: Seq<u8>) -> Seq<u8> {
    if t.len() <= 0xFF {
        seq![tags::TYPE_STRING, t.len() as u8] + t
    } else {
        seq![tags::TYPE_LONG_STRING] + bytes2(t.len()) + t
    }
}

/// The tag and count of a container: the short tier up to 255 entries.
pub open spec fn count_header(short: u8, long: u8, n: nat) -> Seq<u8> {
    if n <= 0xFF {
        seq![short, n as u8]
    } else {
        seq![long] + bytes2(n)
    }
}

/// The canonical encoding of a tree.
pub open spec fn encoding(t: Tree) -> Seq<u8>
    decreases t,
{
    match t {
        Tree::Null => seq![tags::TYPE_NULL],
        Tree::Bool(b) => if b { seq![tags::TYPE_BOOLEAN_TRUE] } else { seq![tags::TYPE_BOOLEAN_FALSE] },
        Tree::Int(i) => int_encoding(i),
        Tree::Float(b) => seq![tags::TYPE_DOUBLE] + bytes8(b as nat),
        Tree::Text(s) => text_encoding(s),
        Tree::Array(a) => count_header(tags::TYPE_ARRAY, tags::TYPE_LONG_ARRAY, a.len()) + items_encoding(a),
        Tree::Object(m) => count_header(tags::TYPE_MAP, tags::TYPE_LONG_MAP, m.len()) + entries_encoding(m),
    }
}

pub open spec fn items_encoding(a: Seq<Tree>) -> Seq<u8>
    decreases a,
{
    if a.len() == 0 {
        Seq::empty()
    } else {
        encoding(a[0]) + items_encoding(a.subrange(1, a.len() as int))
    }
}

/// Each entry as its key, then its value; a text key is encoded as text.
pub open spec fn entries_encoding(m: Seq<(Tree, Tree)>) -> Seq<u8>
    decreases m,
{
    if m.len() == 0 {
        Seq::empty()
    } else {
        encoding(m[0].0) + encoding(m[0].1) + entries_encoding(m.subrange(1, m.len() as int))
    }
}

/// A byte run framed with the smallest length tier that holds it.
pub open spec fn blob_encoding(c: Seq<u8>) -> Seq<u8> {
    if c.len() <= 0xFF {
        seq![tags::TYPE_BINARY_DATA_U1, c.len() as u8] + c
    } else if c.len() <= 0xFFFF {
        seq![tags::TYPE_BINARY_DATA_U2] + bytes2(c.len()) + c
    } else {
        seq![tags::TYPE_BINARY_DATA_U4] + bytes4(c.len()) + c
    }
}

/// A compressed block around the zlib stream `c`.
pub open spec fn compressed_encoding(c: Seq<u8>) -> Seq<u8> {
    seq![tags::TYPE_COMPRESSED, tags::COMPRESSED_MARKER] + blob_encoding(c)
}

// ---- decoding ----

/// An 8-byte integer: a number where a double holds it exactly, else its decimal text.
pub open spec fn wide_int(v: int) -> Tree {
    if double_exact(v) {
        Tree::Int(v)
    } else {
        Tree::Text(decimal(v))
    }
}

/// The text that stands for a NaN or an infinity.
pub open spec fn nonfinite_text(negative: bool, nan: bool) -> Seq<u8> {
    if nan {
        seq![78u8, 97u8, 78u8]
    } else if negative {
        seq![45u8, 105u8, 110u8, 102u8]
    } else {
        seq![105u8, 110u8, 102u8]
    }
}

/// A decoded double: a number when finite, else text.
pub open spec fn double_tree(b: nat) -> Tree {
    if finite_bits(b as u64) {
        Tree::Float(b as u64)
    } else {
        Tree::Text(nonfinite_text(b >= 0x8000_0000_0000_0000, b % 0x10_0000_0000_0000 != 0))
    }
}

/// The significand of a subnormal single shifted left until its leading bit is bit 23.
pub open spec fn normalized(m: nat) -> nat
    decreases 0x100_0000 - m,
{
    if m == 0 || m >= 0x80_0000 {
        m
    } else {
        normalized(2 * m)
    }
}

/// How many shifts `normalized` makes.
pub open spec fn norm_shift(m: nat) -> nat
    decreases 0x100_0000 - m,
{
    if m == 0 || m >= 0x80_0000 {
        0
    } else {
        1 + norm_shift(2 * m)
    }
}

/// The double with the same value as the finite single with bit pattern `b`.
pub open spec fn widen_single(b: nat) -> nat {
    let sign = (b / 0x8000_0000) * 0x8000_0000_0000_0000;
    let e = (b / 0x80_0000) % 0x100;
    let m = b % 0x80_0000;
    if e == 0 && m == 0 {
        sign
    } else if e == 0 {
        sign + ((897 - norm_shift(m)) as nat) * 0x10_0000_0000_0000 + ((normalized(m) - 0x80_0000) as nat)
            * 0x2000_0000
    } else {
        sign + (e + 896) * 0x10_0000_0000_0000 + m * 0x2000_0000
    }
}

/// A decoded single: widened to a double when finite, else text.
pub open spec fn single_tree(b: nat) -> Tree {
    if (b / 0x80_0000) % 0x100 == 0xFF {
        Tree::Text(nonfinite_text(b >= 0x8000_0000, b % 0x80_0000 != 0))
    } else {
        Tree::Float(widen_single(b) as u64)
    }
}

/// A byte run as decoded: an array of small numbers.
pub open spec fn byte_array(t: Seq<u8>) -> Seq<Tree> {
    Seq::new(t.len(), |i: int| Tree::Int(t[i] as int))
}

/// The bytes a compressed block's payload value holds: text as its bytes, an
/// array when each element is an integer in 0..=255.
pub open spec fn payload_bytes(t: Tree) -> Option<Seq<u8>> {
    match t {
        Tree::Text(s) => Some(s),
        Tree::Array(a) => if forall|i: int| 0 <= i < a.len() ==> (#[trigger] a[i] is Int) && 0 <= a[i]->Int_0 <= 0xFF {
            Some(Seq::new(a.len(), |i: int| a[i]->Int_0 as u8))
        } else {
            None
        },
        _ => None,
    }
}

/// The key a decoded value becomes: text as is; an integer as its decimal
/// text; null and booleans as their JSON words; a float, an array or a map
/// stays as it is, its text left to whoever renders it.
pub open spec fn key_of(t: Tree) -> Tree {
    match t {
        Tree::Int(i) => Tree::Text(decimal(i)),
        Tree::Null => Tree::Text(seq![110u8, 117u8, 108u8, 108u8]),
        Tree::Bool(b) => Tree::Text(
            if b { seq![116u8, 114u8, 117u8, 101u8] } else { seq![102u8, 97u8, 108u8, 115u8, 101u8] },
        ),
        _ => t,
    }
}

/// Two keys name the same entry: equal texts, equal floats, or arrays and
/// maps with equal encodings.
pub open spec fn same_key(a: Tree, b: Tree) -> bool {
    match (a, b) {
        (Tree::Text(x), Tree::Text(y)) => x == y,
        (Tree::Float(x), Tree::Float(y)) => x == y,
        (Tree::Array(_), Tree::Array(_)) | (Tree::Object(_), Tree::Object(_)) => encodable(a) && encodable(b)
            && encoding(a) == encoding(b),
        _ => false,
    }
}

/// Every map in the tree has distinct keys.
pub open spec fn maps_unique(t: Tree) -> bool
    decreases t,
{
    match t {
        Tree::Array(a) => forall|i: int| 0 <= i < a.len() ==> maps_unique(#[trigger] a[i]),
        Tree::Object(m) => keys_unique(m) && forall|i: int|
            0 <= i < m.len() ==> maps_unique((#[trigger] m[i]).0) && maps_unique(m[i].1),
        _ => true,
    }
}

/// The first index at or after `i` whose key is `k`, or -1.
pub open spec fn key_index_from(m: Seq<(Tree, Tree)>, k: Tree, i: int) -> int
    decreases m.len() - i,
{
    if i < 0 || i >= m.len() {
        -1
    } else if same_key(m[i].0, k) {
        i
    } else {
        key_index_from(m, k, i + 1)
    }
}

/// A map after inserting `k`: the entry of an equal key is replaced in place,
/// else the entry is appended.
pub open spec fn insert_entry(m: Seq<(Tree, Tree)>, k: Tree, v: Tree) -> Seq<(Tree, Tree)> {
    let i = key_index_from(m, k, 0);
    if i < 0 {
        m.push((k, v))
    } else {
        m.update(i, (k, v))
    }
}

/// The bytes of `s` from `a` up to `b`.
pub open spec fn slice(s: Seq<u8>, a: nat, b: nat) -> Seq<u8> {
    s.subrange(a as int, b as int)
}

/// The length prefix of width `w` (1, 2 or 4) at `q`; `q + w <= s.len()`.
pub open spec fn length_at(s: Seq<u8>, q: nat, w: nat) -> nat {
    if w == 1 {
        s[q as int] as nat
    } else if w == 2 {
        be2(slice(s, q, q + 2))
    } else {
        be4(slice(s, q, q + 4))
    }
}

/// The width of the length prefix that a tag carries.
pub open spec fn prefix_width(tag: u8) -> nat {
    if tag == tags::TYPE_STRING || tag == tags::TYPE_ARRAY || tag == tags::TYPE_MAP || tag
        == tags::TYPE_BINARY_DATA_U1 {
        1
    } else if tag == tags::TYPE_BINARY_DATA_U4 {
        4
    } else {
        2
    }
}

/// The value that starts at position `p` of `s`, decoded with at most `d`
/// levels of containers below it, with the position after it; or the error.
#[verifier::opaque]
pub open spec fn parse(s: Seq<u8>, p: nat, d: nat) -> Result<(Tree, nat), CodecError>
    decreases d, 0nat, 0nat,
{
    if p >= s.len() {
        Err(CodecError::Truncated)
    } else {
        let tag = s[p as int];
        let q = p + 1;
        if tag == tags::TYPE_PASS || tag == tags::TYPE_NULL {
            Ok((Tree::Null, q))
        } else if tag == tags::TYPE_BOOLEAN_FALSE {
            Ok((Tree::Bool(false), q))
        } else if tag == tags::TYPE_BOOLEAN_TRUE {
            Ok((Tree::Bool(true), q))
        } else if tag == tags::TYPE_U1 || tag == tags::TYPE_S1 {
            if q + 1 > s.len() {
                Err(CodecError::Truncated)
            } else {
                let u = s[q as int] as nat;
                Ok((Tree::Int(if tag == tags::TYPE_U1 { u as int } else { signed_of(u, 0x100) }), q + 1))
            }
        } else if tag == tags::TYPE_U2 || tag == tags::TYPE_S2 {
            if q + 2 > s.len() {
                Err(CodecError::Truncated)
            } else {
                let u = be2(slice(s, q, q + 2));
                Ok((Tree::Int(if tag == tags::TYPE_U2 { u as int } else { signed_of(u, 0x1_0000) }), q + 2))
            }
        } else if tag == tags::TYPE_U4 || tag == tags::TYPE_S4 {
            if q + 4 > s.len() {
                Err(CodecError::Truncated)
            } else {
                let u = be4(slice(s, q, q + 4));
                Ok((Tree::Int(if tag == tags::TYPE_U4 { u as int } else { signed_of(u, 0x1_0000_0000) }), q + 4))
            }
        } else if tag == tags::TYPE_U8 || tag == tags::TYPE_S8 {
            if q + 8 > s.len() {
                Err(CodecError::Truncated)
            } else {
                let u = be8(slice(s, q, q + 8));
                Ok((wide_int(if tag == tags::TYPE_U8 { u as int } else { signed_of(u, 0x1_0000_0000_0000_0000) }), q + 8))
            }
        } else if tag == tags::TYPE_FLOAT {
            if q + 4 > s.len() {
                Err(CodecError::Truncated)
            } else {
                Ok((single_tree(be4(slice(s, q, q + 4))), q + 4))
            }
        } else if tag == tags::TYPE_DOUBLE {
            if q + 8 > s.len() {
                Err(CodecError::Truncated)
            } else {
                Ok((double_tree(be8(slice(s, q, q + 8))), q + 8))
            }
        } else if tag == tags::TYPE_DATETIME {
            if q + 4 > s.len() {
                Err(CodecError::Truncated)
            } else {
                Ok((Tree::Text(rfc3339_text(be4(slice(s, q, q + 4)) as u32)), q + 4))
            }
        } else if tag == tags::TYPE_STRING || tag == tags::TYPE_LONG_STRING || tag == tags::TYPE_BINARY_DATA_U1
            || tag == tags::TYPE_BINARY_DATA_U2 || tag == tags::TYPE_BINARY_DATA_U4 {
            let w = prefix_width(tag);
            if q + w > s.len() {
                Err(CodecError::Truncated)
            } else {
                let n = length_at(s, q, w);
                if q + w + n > s.len() {
                    Err(CodecError::Truncated)
                } else {
                    let t = slice(s, q + w, q + w + n);
                    if tag == tags::TYPE_STRING || tag == tags::TYPE_LONG_STRING {
                        if valid_utf8(t) {
                            Ok((Tree::Text(t), q + w + n))
                        } else {
                            Err(CodecError::InvalidEncoding)
                        }
                    } else {
                        Ok((Tree::Array(byte_array(t)), q + w + n))
                    }
                }
            }
        } else if tag == tags::TYPE_ARRAY || tag == tags::TYPE_LONG_ARRAY || tag == tags::TYPE_MAP || tag
            == tags::TYPE_LONG_MAP {
            let w = prefix_width(tag);
            if d == 0 {
                Err(CodecError::DepthExceeded)
            } else if q + w > s.len() {
                Err(CodecError::Truncated)
            } else {
                let n = length_at(s, q, w);
                if tag == tags::TYPE_ARRAY || tag == tags::TYPE_LONG_ARRAY {
                    match parse_items(s, q + w, n, (d - 1) as nat, Seq::empty()) {
                        Ok((a, e)) => Ok((Tree::Array(a), e)),
                        Err(er) => Err(er),
                    }
                } else {
                    match parse_entries(s, q + w, n, (d - 1) as nat, Seq::empty()) {
                        Ok((m, e)) => Ok((Tree::Object(m), e)),
                        Err(er) => Err(er),
                    }
                }
            }
        } else if tag == tags::TYPE_COMPRESSED {
            if d == 0 {
                Err(CodecError::DepthExceeded)
            } else if q + 1 > s.len() {
                Err(CodecError::Truncated)
            } else {
                compressed_body(s, q + 1, (d - 1) as nat)
            }
        } else {
            Err(CodecError::UnknownType(tag))
        }
    }
}

/// What follows a compressed block's marker byte at `p`: a value holding the
/// zlib stream, whose inflated bytes are decoded on their own.
#[verifier::opaque]
pub open spec fn compressed_body(s: Seq<u8>, p: nat, d: nat) -> Result<(Tree, nat), CodecError>
    decreases d, 1nat, 0nat,
{
    match parse(s, p, d) {
        Err(er) => Err(er),
        Ok((inner, e)) => match payload_bytes(inner) {
            None => Err(CodecError::DecompressionFailed),
            Some(c) => match zlib_inflated(c) {
                None => Err(CodecError::DecompressionFailed),
                Some(x) => match parse(x, 0, d) {
                    Ok((v, _)) => Ok((v, e)),
                    Err(er) => Err(er),
                },
            },
        },
    }
}

/// `n` values in sequence from position `p`, appended to `acc`.
#[verifier::opaque]
pub open spec fn parse_items(s: Seq<u8>, p: nat, n: nat, d: nat, acc: Seq<Tree>) -> Result<(Seq<Tree>, nat), CodecError>
    decreases d, 1nat, n,
{
    if n == 0 {
        Ok((acc, p))
    } else {
        match parse(s, p, d) {
            Err(er) => Err(er),
            Ok((v, e)) => parse_items(s, e, (n - 1) as nat, d, acc.push(v)),
        }
    }
}

/// `n` key/value pairs in sequence from position `p`, inserted into `acc`.
#[verifier::opaque]
pub open spec fn parse_entries(
    s: Seq<u8>,
    p: nat,
    n: nat,
    d: nat,
    acc: Seq<(Tree, Tree)>,
) -> Result<(Seq<(Tree, Tree)>, nat), CodecError>
    decreases d, 1nat, n,
{
    if n == 0 {
        Ok((acc, p))
    } else {
        match parse(s, p, d) {
            Err(er) => Err(er),
            Ok((k, e1)) => match parse(s, e1, d) {
                Err(er) => Err(er),
                Ok((v, e2)) => parse_entries(s, e2, (n - 1) as nat, d, insert_entry(acc, key_of(k), v)),
            },
        }
    }
}

} // verus!
