//! What holds across decoding and encoding.
use vstd::prelude::*;
use crate::tags;
use crate::value::{Tree, keys_unique, key_form};
use crate::wire::{
    parse, parse_items, parse_entries, compressed_body, encoding, items_encoding, entries_encoding,
    text_encoding, int_encoding, compressed_encoding, encodable, fits_depth, exact_ints,
    valid_utf8, be2, be4, be8, bytes2, bytes4, bytes8, twos, slice, length_at, key_of, same_key, maps_unique,
    key_index_from, insert_entry, payload_bytes, byte_array, in_int_range, double_exact, prefix_width, count_header, };
use crate::error::CodecError;
use crate::compress::zlib_inflated;

verus! {

/// `e` stands in `s` from position `p` on.
pub open spec fn occurs_at(s: Seq<u8>, p: nat, e: Seq<u8>) -> bool {
    p + e.len() <= s.len() && s.subrange(p as int, (p + e.len()) as int) == e
}

proof fn lemma_window(s: Seq<u8>, p: nat, e: Seq<u8>, a: nat, b: nat)
    requires
        occurs_at(s, p, e),
        a <= b <= e.len(),
    ensures
        slice(s, p + a, p + b) == e.subrange(a as int, b as int),
        occurs_at(s, p + a, e.subrange(a as int, b as int)),
        a < e.len() ==> s[(p + a) as int] == e[a as int],
{
    assert(s.subrange((p + a) as int, (p + b) as int) =~= e.subrange(a as int, b as int));
    if a < e.len() {
        assert(s.subrange(p as int, (p + e.len()) as int)[a as int] == s[(p + a) as int]);
    }
}

proof fn lemma_be2(v: nat)
    requires
        v < 0x1_0000,
    ensures
        be2(bytes2(v)) == v,
        bytes2(v).len() == 2,
{
}

proof fn lemma_be4(v: nat)
    requires
        v < 0x1_0000_0000,
    ensures
        be4(bytes4(v)) == v,
        bytes4(v).len() == 4,
{
    lemma_be2(v / 0x1_0000);
    lemma_be2(v % 0x1_0000);
    assert(bytes4(v).subrange(0, 2) =~= bytes2(v / 0x1_0000));
    assert(bytes4(v).subrange(2, 4) =~= bytes2(v % 0x1_0000));
}

proof fn lemma_be8(v: nat)
    requires
        v < 0x1_0000_0000_0000_0000,
    ensures
        be8(bytes8(v)) == v,
        bytes8(v).len() == 8,
{
    lemma_be4(v / 0x1_0000_0000);
    lemma_be4(v % 0x1_0000_0000);
    assert(bytes8(v).subrange(0, 4) =~= bytes4(v / 0x1_0000_0000));
    assert(bytes8(v).subrange(4, 8) =~= bytes4(v % 0x1_0000_0000));
}

#[verifier::spinoff_prover]
#[verifier::rlimit(80)]
proof fn lemma_int_round_trip(s: Seq<u8>, p: nat, i: int, d: nat)
    requires
        in_int_range(i),
        double_exact(i),
        occurs_at(s, p, int_encoding(i)),
    ensures
        parse(s, p, d) == Ok::<(Tree, nat), CodecError>((Tree::Int(i), p + int_encoding(i).len())),
{
    reveal(parse);
    reveal(parse_items);
    reveal(parse_entries);
    reveal(compressed_body);
    let e = int_encoding(i);
    lemma_window(s, p, e, 0, 1);
    if -0x80 <= i < 0x80 {
        lemma_window(s, p, e, 1, 2);
    } else if -0x8000 <= i < 0x8000 {
        lemma_be2(twos(i, 0x1_0000));
        lemma_window(s, p, e, 1, 3);
        assert(e.subrange(1, 3) =~= bytes2(twos(i, 0x1_0000)));
    } else if -0x8000_0000 <= i < 0x8000_0000 {
        lemma_be4(twos(i, 0x1_0000_0000));
        lemma_window(s, p, e, 1, 5);
        assert(e.subrange(1, 5) =~= bytes4(twos(i, 0x1_0000_0000)));
    } else if i < 0x8000_0000_0000_0000 {
        lemma_be8(twos(i, 0x1_0000_0000_0000_0000));
        lemma_window(s, p, e, 1, 9);
        assert(e.subrange(1, 9) =~= bytes8(twos(i, 0x1_0000_0000_0000_0000)));
    } else {
        lemma_be8(i as nat);
        lemma_window(s, p, e, 1, 9);
        assert(e.subrange(1, 9) =~= bytes8(i as nat));
    }
}

proof fn lemma_text_round_trip(s: Seq<u8>, p: nat, x: Seq<u8>, d: nat)
    requires
        valid_utf8(x),
        x.len() <= 0xFFFF,
        occurs_at(s, p, text_encoding(x)),
    ensures
        parse(s, p, d) == Ok::<(Tree, nat), CodecError>((Tree::Text(x), p + text_encoding(x).len())),
{
    reveal(parse);
    reveal(parse_items);
    reveal(parse_entries);
    reveal(compressed_body);
    let e = text_encoding(x);
    lemma_window(s, p, e, 0, 1);
    if x.len() <= 0xFF {
        lemma_window(s, p, e, 1, 2);
        lemma_window(s, p, e, 2, e.len());
        assert(e.subrange(2, e.len() as int) =~= x);
    } else {
        lemma_be2(x.len());
        lemma_window(s, p, e, 1, 3);
        assert(e.subrange(1, 3) =~= bytes2(x.len()));
        lemma_window(s, p, e, 3, e.len());
        assert(e.subrange(3, e.len() as int) =~= x);
    }
}

proof fn lemma_key_absent(m: Seq<(Tree, Tree)>, k: Tree, i: int)
    requires
        0 <= i,
        forall|j: int| 0 <= j < m.len() ==> !same_key((#[trigger] m[j]).0, k),
    ensures
        key_index_from(m, k, i) == -1,
    decreases m.len() - i,
{
    if i < m.len() {
        lemma_key_absent(m, k, i + 1);
    }
}

/// A tree that decodes back to itself at depth `d`: well formed (so each of
/// its maps has distinct keys, as the decoder tells keys apart, and keys of a
/// key form), encodable, nested at most `d` deep, and with every integer held
/// exactly by a double. A map with two keys that the decoder takes for the
/// same encodes, but decodes with the later entry in the earlier one's place.
pub open spec fn round_trips(t: Tree, d: nat) -> bool {
    t.wf() && encodable(t) && fits_depth(t, d) && exact_ints(t)
}

proof fn lemma_parse_encoding(s: Seq<u8>, p: nat, t: Tree, d: nat)
    requires
        round_trips(t, d),
        occurs_at(s, p, encoding(t)),
    ensures
        parse(s, p, d) == Ok::<(Tree, nat), CodecError>((t, p + encoding(t).len())),
    decreases t,
{
    reveal(parse);
    reveal(parse_items);
    reveal(parse_entries);
    reveal(compressed_body);
    let e = encoding(t);
    match t {
        Tree::Null => {
            lemma_window(s, p, e, 0, 1);
        },
        Tree::Bool(b) => {
            lemma_window(s, p, e, 0, 1);
        },
        Tree::Int(i) => {
            lemma_int_round_trip(s, p, i, d);
        },
        Tree::Float(b) => {
            lemma_window(s, p, e, 0, 1);
            lemma_be8(b as nat);
            lemma_window(s, p, e, 1, 9);
            assert(e.subrange(1, 9) =~= bytes8(b as nat));
        },
        Tree::Text(x) => {
            lemma_text_round_trip(s, p, x, d);
        },
        Tree::Array(a) => {
            let w: nat = if a.len() <= 0xFF { 1 } else { 2 };
            let body = items_encoding(a);
            lemma_window(s, p, e, 0, 1);
            if a.len() <= 0xFF {
                lemma_window(s, p, e, 1, 2);
            } else {
                lemma_be2(a.len());
                lemma_window(s, p, e, 1, 3);
                assert(e.subrange(1, 3) =~= bytes2(a.len()));
            }
            assert(length_at(s, p + 1, w) == a.len());
            lemma_window(s, p, e, 1 + w, e.len());
            assert(e.subrange((1 + w) as int, e.len() as int) =~= body);
            assert forall|i: int| 0 <= i < a.len() implies round_trips(#[trigger] a[i], (d - 1) as nat) by {}
            lemma_items_round_trip(s, p + 1 + w, a, (d - 1) as nat, Seq::empty());
            assert(Seq::<Tree>::empty() + a =~= a);
        },
        Tree::Object(m) => {
            let w: nat = if m.len() <= 0xFF { 1 } else { 2 };
            let body = entries_encoding(m);
            lemma_window(s, p, e, 0, 1);
            if m.len() <= 0xFF {
                lemma_window(s, p, e, 1, 2);
            } else {
                lemma_be2(m.len());
                lemma_window(s, p, e, 1, 3);
                assert(e.subrange(1, 3) =~= bytes2(m.len()));
            }
            assert(length_at(s, p + 1, w) == m.len());
            lemma_window(s, p, e, 1 + w, e.len());
            assert(e.subrange((1 + w) as int, e.len() as int) =~= body);
            assert forall|i: int| 0 <= i < m.len() implies key_form((#[trigger] m[i]).0) && round_trips(
                m[i].0,
                (d - 1) as nat,
            ) && round_trips(m[i].1, (d - 1) as nat) by {}
            lemma_entries_round_trip(s, p + 1 + w, m, (d - 1) as nat, Seq::empty());
            assert(Seq::<(Tree, Tree)>::empty() + m =~= m);
        },
    }
}

proof fn lemma_items_round_trip(s: Seq<u8>, q: nat, a: Seq<Tree>, d: nat, acc: Seq<Tree>)
    requires
        forall|i: int| 0 <= i < a.len() ==> round_trips(#[trigger] a[i], d),
        occurs_at(s, q, items_encoding(a)),
    ensures
        parse_items(s, q, a.len(), d, acc) == Ok::<(Seq<Tree>, nat), CodecError>(
            (acc + a, q + items_encoding(a).len()),
        ),
    decreases a,
{
    reveal(parse);
    reveal(parse_items);
    reveal(parse_entries);
    reveal(compressed_body);
    if a.len() == 0 {
        assert(acc + a =~= acc);
    } else {
        let e = items_encoding(a);
        let e0 = encoding(a[0]);
        let rest = a.subrange(1, a.len() as int);
        lemma_window(s, q, e, 0, e0.len());
        assert(e.subrange(0, e0.len() as int) =~= e0);
        lemma_window(s, q, e, e0.len(), e.len());
        assert(e.subrange(e0.len() as int, e.len() as int) =~= items_encoding(rest));
        lemma_parse_encoding(s, q, a[0], d);
        assert forall|i: int| 0 <= i < rest.len() implies round_trips(#[trigger] rest[i], d) by {
            assert(rest[i] == a[i + 1]);
        }
        lemma_items_round_trip(s, q + e0.len(), rest, d, acc.push(a[0]));
        assert(acc.push(a[0]) + rest =~= acc + a);
    }
}

proof fn lemma_entries_round_trip(
    s: Seq<u8>,
    q: nat,
    m: Seq<(Tree, Tree)>,
    d: nat,
    acc: Seq<(Tree, Tree)>,
)
    requires
        keys_unique(m),
        forall|i: int| 0 <= i < m.len() ==> key_form((#[trigger] m[i]).0) && round_trips(m[i].0, d)
            && round_trips(m[i].1, d),
        forall|i: int, j: int| 0 <= i < acc.len() && 0 <= j < m.len() ==> !same_key(acc[i].0, m[j].0),
        occurs_at(s, q, entries_encoding(m)),
    ensures
        parse_entries(s, q, m.len(), d, acc) == Ok::<(Seq<(Tree, Tree)>, nat), CodecError>(
            (acc + m, q + entries_encoding(m).len()),
        ),
    decreases m,
{
    reveal(parse);
    reveal(parse_items);
    reveal(parse_entries);
    reveal(compressed_body);
    if m.len() == 0 {
        assert(acc + m =~= acc);
    } else {
        let e = entries_encoding(m);
        let k = m[0].0;
        let v = m[0].1;
        let ek = encoding(k);
        let ev = encoding(v);
        let rest = m.subrange(1, m.len() as int);
        lemma_window(s, q, e, 0, ek.len());
        assert(e.subrange(0, ek.len() as int) =~= ek);
        lemma_parse_encoding(s, q, k, d);
        lemma_window(s, q, e, ek.len(), ek.len() + ev.len());
        assert(e.subrange(ek.len() as int, (ek.len() + ev.len()) as int) =~= ev);
        lemma_parse_encoding(s, q + ek.len(), v, d);
        lemma_window(s, q, e, ek.len() + ev.len(), e.len());
        assert(e.subrange((ek.len() + ev.len()) as int, e.len() as int) =~= entries_encoding(rest));
        assert(key_of(k) == k);
        assert forall|j: int| 0 <= j < acc.len() implies !same_key((#[trigger] acc[j]).0, k) by {
            assert(!same_key(acc[j].0, m[0].0));
        }
        lemma_key_absent(acc, k, 0);
        assert(insert_entry(acc, k, v) == acc.push((k, v)));
        let acc2 = acc.push((k, v));
        assert forall|i: int, j: int| 0 <= i < acc2.len() && 0 <= j < rest.len() implies !same_key(
            acc2[i].0,
            rest[j].0,
        ) by {
            assert(rest[j] == m[j + 1]);
            if i < acc.len() {
                assert(acc2[i] == acc[i]);
            }
        }
        assert forall|i: int| 0 <= i < rest.len() implies key_form((#[trigger] rest[i]).0) && round_trips(
            rest[i].0,
            d,
        ) && round_trips(rest[i].1, d) by {
            assert(rest[i] == m[i + 1]);
        }
        assert(keys_unique(rest)) by {
            assert forall|i: int, j: int| 0 <= i < j < rest.len() implies !same_key(rest[i].0, rest[j].0) by {
                assert(rest[i] == m[i + 1]);
                assert(rest[j] == m[j + 1]);
            }
        }
        lemma_entries_round_trip(s, q + ek.len() + ev.len(), rest, d, acc2);
        assert(acc2 + rest =~= acc + m);
    }
}

/// Decoding the canonical encoding of a tree followed by any bytes gives the
/// tree back and stops right after the encoding, where the tree is well formed,
/// its lengths fit the encoder, its containers nest at most `d` deep, and a
/// double holds each of its integers exactly.
pub proof fn lemma_round_trip_with_rest(t: Tree, rest: Seq<u8>, d: nat)
    requires
        round_trips(t, d),
    ensures
        parse(encoding(t) + rest, 0, d) == Ok::<(Tree, nat), CodecError>((t, encoding(t).len())),
{
    assert((encoding(t) + rest).subrange(0, encoding(t).len() as int) =~= encoding(t));
    lemma_parse_encoding(encoding(t) + rest, 0, t, d);
}

/// Decoding the canonical encoding of a tree gives the tree back, where the
/// tree is well formed, its lengths fit the encoder, its containers nest at
/// most `d` deep, and a double holds each of its integers exactly.
pub proof fn lemma_round_trip(t: Tree, d: nat)
    requires
        round_trips(t, d),
    ensures
        parse(encoding(t), 0, d) == Ok::<(Tree, nat), CodecError>((t, encoding(t).len())),
{
    assert(encoding(t).subrange(0, encoding(t).len() as int) =~= encoding(t));
    lemma_parse_encoding(encoding(t), 0, t, d);
}

/// A byte run framed with the length tier of width `w`: 1, 2 or 4 bytes.
pub open spec fn blob_framing(c: Seq<u8>, w: nat) -> Seq<u8> {
    if w == 1 {
        seq![tags::TYPE_BINARY_DATA_U1, c.len() as u8] + c
    } else if w == 2 {
        seq![tags::TYPE_BINARY_DATA_U2] + bytes2(c.len()) + c
    } else {
        seq![tags::TYPE_BINARY_DATA_U4] + bytes4(c.len()) + c
    }
}

/// A length of `n` fits the tier of width `w`.
pub open spec fn fits_tier(n: nat, w: nat) -> bool {
    (w == 1 && n <= 0xFF) || (w == 2 && n <= 0xFFFF) || (w == 4 && n <= 0xFFFF_FFFF)
}

#[verifier::spinoff_prover]
#[verifier::rlimit(60)]
proof fn lemma_blob_round_trip(s: Seq<u8>, p: nat, c: Seq<u8>, w: nat, d: nat)
    requires
        fits_tier(c.len(), w),
        occurs_at(s, p, blob_framing(c, w)),
    ensures
        parse(s, p, d) == Ok::<(Tree, nat), CodecError>((Tree::Array(byte_array(c)), p + blob_framing(c, w).len())),
{
    reveal(parse);
    reveal(parse_items);
    reveal(parse_entries);
    reveal(compressed_body);
    let e = blob_framing(c, w);
    lemma_window(s, p, e, 0, 1);
    if w == 1 {
        lemma_window(s, p, e, 1, 2);
        lemma_window(s, p, e, 2, e.len());
        assert(e.subrange(2, e.len() as int) =~= c);
    } else if w == 2 {
        lemma_be2(c.len());
        lemma_window(s, p, e, 1, 3);
        assert(e.subrange(1, 3) =~= bytes2(c.len()));
        lemma_window(s, p, e, 3, e.len());
        assert(e.subrange(3, e.len() as int) =~= c);
    } else {
        lemma_be4(c.len());
        lemma_window(s, p, e, 1, 5);
        assert(e.subrange(1, 5) =~= bytes4(c.len()));
        lemma_window(s, p, e, 5, e.len());
        assert(e.subrange(5, e.len() as int) =~= c);
    }
}

proof fn lemma_payload_of_bytes(c: Seq<u8>)
    ensures
        payload_bytes(Tree::Array(byte_array(c))) == Some(c),
{
    let a = byte_array(c);
    assert(forall|i: int| 0 <= i < a.len() ==> (#[trigger] a[i] is Int) && 0 <= a[i]->Int_0 <= 0xFF);
    assert(Seq::new(a.len(), |i: int| a[i]->Int_0 as u8) =~= c);
}

/// A compressed block with marker byte `marker` around the zlib stream `c`
/// framed with the length tier of width `w`.
pub open spec fn compressed_block(marker: u8, c: Seq<u8>, w: nat) -> Seq<u8> {
    seq![tags::TYPE_COMPRESSED, marker] + blob_framing(c, w)
}

/// A compressed block anywhere in a buffer, whatever its marker byte and
/// length tier, decodes as the bytes its stream inflates to decode on their
/// own, one level of depth lower, and consumes exactly the block.
#[verifier::spinoff_prover]
#[verifier::rlimit(60)]
pub proof fn lemma_compressed_block(s: Seq<u8>, p: nat, marker: u8, c: Seq<u8>, w: nat, x: Seq<u8>, d: nat)
    requires
        fits_tier(c.len(), w),
        zlib_inflated(c) == Some(x),
        occurs_at(s, p, compressed_block(marker, c, w)),
    ensures
        parse(s, p, d + 1) == (match parse(x, 0, d) {
            Ok((v, _)) => Ok::<(Tree, nat), CodecError>((v, p + compressed_block(marker, c, w).len())),
            Err(e) => Err(e),
        }),
{
    reveal(parse);
    reveal(parse_items);
    reveal(parse_entries);
    reveal(compressed_body);
    let b = compressed_block(marker, c, w);
    let f = blob_framing(c, w);
    lemma_window(s, p, b, 0, 1);
    lemma_window(s, p, b, 2, b.len());
    assert(b.subrange(2, b.len() as int) =~= f);
    lemma_blob_round_trip(s, p + 2, c, w, d);
    lemma_payload_of_bytes(c);
}

/// A compressed block anywhere in a buffer, whatever its marker byte and
/// length tier, decodes to the tree whose canonical encoding its zlib stream
/// inflates to, whichever deflate implementation produced the stream, and
/// consumes exactly the block; the block itself takes one level of depth.
pub proof fn lemma_compressed_round_trip(
    t: Tree,
    s: Seq<u8>,
    p: nat,
    marker: u8,
    c: Seq<u8>,
    w: nat,
    d: nat,
)
    requires
        round_trips(t, d),
        fits_tier(c.len(), w),
        zlib_inflated(c) == Some(encoding(t)),
        occurs_at(s, p, compressed_block(marker, c, w)),
    ensures
        parse(s, p, d + 1) == Ok::<(Tree, nat), CodecError>((t, p + compressed_block(marker, c, w).len())),
{
    lemma_compressed_block(s, p, marker, c, w, encoding(t), d);
    lemma_round_trip(t, d);
}

/// What `encode_compressed` writes decodes to the value it was given.
pub proof fn lemma_encoded_compressed_round_trip(t: Tree, c: Seq<u8>, d: nat)
    requires
        round_trips(t, d),
        c.len() <= 0xFFFF_FFFF,
        zlib_inflated(c) == Some(encoding(t)),
    ensures
        parse(compressed_encoding(c), 0, d + 1) == Ok::<(Tree, nat), CodecError>(
            (t, compressed_encoding(c).len()),
        ),
{
    let w: nat = if c.len() <= 0xFF { 1 } else if c.len() <= 0xFFFF { 2 } else { 4 };
    let s = compressed_encoding(c);
    assert(compressed_block(tags::COMPRESSED_MARKER, c, w) =~= s);
    assert(s.subrange(0, s.len() as int) =~= s);
    lemma_compressed_round_trip(t, s, 0, tags::COMPRESSED_MARKER, c, w, d);
}

/// `k` arrays of one element each, nested, around the byte `inner`.
pub open spec fn nested_arrays(k: nat, inner: u8) -> Seq<u8> {
    Seq::new(
        2 * k + 1,
        |i: int|
            if i == 2 * k {
                inner
            } else if i % 2 == 0 {
                tags::TYPE_ARRAY
            } else {
                1u8
            },
    )
}

#[verifier::spinoff_prover]
#[verifier::rlimit(80)]
proof fn lemma_nested_from(s: Seq<u8>, p: nat, k: nat, inner: u8, j: nat, d: nat)
    requires
        occurs_at(s, p, nested_arrays(k, inner)),
        j + d < k,
    ensures
        parse(s, p + 2 * j, d) == Err::<(Tree, nat), CodecError>(CodecError::DepthExceeded),
    decreases d,
{
    reveal(parse);
    reveal(parse_items);
    reveal(parse_entries);
    reveal(compressed_body);
    let e = nested_arrays(k, inner);
    lemma_window(s, p, e, 2 * j, 2 * j + 2);
    lemma_window(s, p, e, 2 * j + 1, 2 * j + 2);
    if d > 0 {
        assert(length_at(s, p + 2 * j + 1, 1) == 1);
        lemma_nested_from(s, p, k, inner, j + 1, (d - 1) as nat);
        assert(p + 2 * j + 2 == p + 2 * (j + 1));
    }
}

/// Arrays nested deeper than the limit fail with `DepthExceeded`, wherever
/// they stand in the buffer, whatever stands innermost and whatever follows.
pub proof fn lemma_depth_guard(s: Seq<u8>, p: nat, k: nat, inner: u8, d: nat)
    requires
        occurs_at(s, p, nested_arrays(k, inner)),
        d < k,
    ensures
        parse(s, p, d) == Err::<(Tree, nat), CodecError>(CodecError::DepthExceeded),
{
    lemma_nested_from(s, p, k, inner, 0, d);
}

/// `k` arrays of one element each, nested, around null.
pub open spec fn nested_tree(k: nat) -> Tree
    decreases k,
{
    if k == 0 {
        Tree::Null
    } else {
        Tree::Array(seq![nested_tree((k - 1) as nat)])
    }
}

#[verifier::spinoff_prover]
#[verifier::rlimit(80)]
proof fn lemma_nested_within_from(s: Seq<u8>, p: nat, k: nat, inner: u8, j: nat, d: nat)
    requires
        inner == tags::TYPE_NULL || inner == tags::TYPE_PASS,
        occurs_at(s, p, nested_arrays(k, inner)),
        j <= k,
        k - j <= d,
    ensures
        parse(s, p + 2 * j, d) == Ok::<(Tree, nat), CodecError>((nested_tree((k - j) as nat), p + 2 * k + 1)),
    decreases k - j,
{
    reveal(parse);
    reveal(parse_items);
    reveal(parse_entries);
    reveal(compressed_body);
    let e = nested_arrays(k, inner);
    if j == k {
        lemma_window(s, p, e, 2 * j, 2 * j + 1);
    } else {
        lemma_window(s, p, e, 2 * j, 2 * j + 2);
        lemma_window(s, p, e, 2 * j + 1, 2 * j + 2);
        assert(length_at(s, p + 2 * j + 1, 1) == 1);
        lemma_nested_within_from(s, p, k, inner, j + 1, (d - 1) as nat);
        assert(p + 2 * j + 2 == p + 2 * (j + 1));
        let t = nested_tree((k - j - 1) as nat);
        assert(Seq::<Tree>::empty().push(t) =~= seq![t]);
        assert(parse_items(s, p + 2 * k + 1, 0, (d - 1) as nat, seq![t]) == Ok::<(Seq<Tree>, nat), CodecError>(
            (seq![t], p + 2 * k + 1),
        ));
        assert(parse_items(s, p + 2 * j + 2, 1, (d - 1) as nat, Seq::empty()) == Ok::<(Seq<Tree>, nat), CodecError>(
            (seq![t], p + 2 * k + 1),
        ));
    }
}

/// Arrays nested no deeper than the limit around null (either null tag),
/// wherever they stand in the buffer, decode to that nesting and consume
/// exactly their bytes.
pub proof fn lemma_depth_within(s: Seq<u8>, p: nat, k: nat, inner: u8, d: nat)
    requires
        inner == tags::TYPE_NULL || inner == tags::TYPE_PASS,
        occurs_at(s, p, nested_arrays(k, inner)),
        k <= d,
    ensures
        parse(s, p, d) == Ok::<(Tree, nat), CodecError>((nested_tree(k), p + 2 * k + 1)),
{
    lemma_nested_within_from(s, p, k, inner, 0, d);
}

/// The errors a decode can end in: all but the encoder's and the typed
/// conversion's.
pub open spec fn decode_failure(e: CodecError) -> bool {
    match e {
        CodecError::ValueTooLarge | CodecError::SchemaMismatch => false,
        _ => true,
    }
}

pub open spec fn fails_as_decode<T>(r: Result<T, CodecError>) -> bool {
    match r {
        Ok(_) => true,
        Err(e) => decode_failure(e),
    }
}

#[verifier::spinoff_prover]
#[verifier::rlimit(80)]
proof fn lemma_parse_failures(s: Seq<u8>, p: nat, d: nat)
    ensures
        fails_as_decode(parse(s, p, d)),
    decreases d, 0nat, 0nat,
{
    reveal(parse);
    reveal(parse_items);
    reveal(parse_entries);
    reveal(compressed_body);
    if p < s.len() && d > 0 {
        let tag = s[p as int];
        let q = p + 1;
        let w = prefix_width(tag);
        let n = length_at(s, q, w);
        lemma_items_failures(s, q + w, n, (d - 1) as nat, Seq::empty());
        lemma_entries_failures(s, q + w, n, (d - 1) as nat, Seq::empty());
        lemma_compressed_failures(s, q + 1, (d - 1) as nat);
    }
}

proof fn lemma_items_failures(s: Seq<u8>, p: nat, n: nat, d: nat, acc: Seq<Tree>)
    ensures
        fails_as_decode(parse_items(s, p, n, d, acc)),
    decreases d, 1nat, n,
{
    reveal(parse);
    reveal(parse_items);
    reveal(parse_entries);
    reveal(compressed_body);
    if n > 0 {
        lemma_parse_failures(s, p, d);
        if let Ok((v, e)) = parse(s, p, d) {
            lemma_items_failures(s, e, (n - 1) as nat, d, acc.push(v));
        }
    }
}

proof fn lemma_entries_failures(s: Seq<u8>, p: nat, n: nat, d: nat, acc: Seq<(Tree, Tree)>)
    ensures
        fails_as_decode(parse_entries(s, p, n, d, acc)),
    decreases d, 1nat, n,
{
    reveal(parse);
    reveal(parse_items);
    reveal(parse_entries);
    reveal(compressed_body);
    if n > 0 {
        lemma_parse_failures(s, p, d);
        if let Ok((k, e1)) = parse(s, p, d) {
            lemma_parse_failures(s, e1, d);
            if let Ok((v, e2)) = parse(s, e1, d) {
                lemma_entries_failures(s, e2, (n - 1) as nat, d, insert_entry(acc, key_of(k), v));
            }
        }
    }
}

proof fn lemma_compressed_failures(s: Seq<u8>, p: nat, d: nat)
    ensures
        fails_as_decode(compressed_body(s, p, d)),
    decreases d, 1nat, 0nat,
{
    reveal(parse);
    reveal(parse_items);
    reveal(parse_entries);
    reveal(compressed_body);
    lemma_parse_failures(s, p, d);
    if let Ok((inner, e)) = parse(s, p, d) {
        if let Some(c) = payload_bytes(inner) {
            if let Some(x) = zlib_inflated(c) {
                lemma_parse_failures(x, 0, d);
            }
        }
    }
}

/// Decoding any bytes either gives a value or fails with `Truncated`,
/// `InvalidEncoding`, `UnknownType`, `DecompressionFailed` or `DepthExceeded`.
pub proof fn lemma_decode_failures(s: Seq<u8>, d: nat)
    ensures
        fails_as_decode(parse(s, 0, d)),
{
    lemma_parse_failures(s, 0, d);
}

/// A tree whose encoding decodes (perhaps not to itself: an integer that no
/// double holds comes back as text) at depth `d`.
pub open spec fn decodes(t: Tree, d: nat) -> bool {
    t.wf() && encodable(t) && fits_depth(t, d)
}

#[verifier::spinoff_prover]
#[verifier::rlimit(80)]
proof fn lemma_int_span(s: Seq<u8>, p: nat, i: int, d: nat)
    requires
        in_int_range(i),
        occurs_at(s, p, int_encoding(i)),
    ensures
        parse(s, p, d) is Ok && parse(s, p, d)->Ok_0.1 == p + int_encoding(i).len(),
{
    reveal(parse);
    reveal(parse_items);
    reveal(parse_entries);
    reveal(compressed_body);
    let e = int_encoding(i);
    lemma_window(s, p, e, 0, 1);
    if -0x80 <= i < 0x80 {
        lemma_window(s, p, e, 1, 2);
    } else if -0x8000 <= i < 0x8000 {
        lemma_window(s, p, e, 1, 3);
    } else if -0x8000_0000 <= i < 0x8000_0000 {
        lemma_window(s, p, e, 1, 5);
    } else {
        lemma_window(s, p, e, 1, 9);
    }
}

proof fn lemma_parse_span(s: Seq<u8>, p: nat, t: Tree, d: nat)
    requires
        decodes(t, d),
        occurs_at(s, p, encoding(t)),
    ensures
        parse(s, p, d) is Ok && parse(s, p, d)->Ok_0.1 == p + encoding(t).len(),
    decreases t,
{
    reveal(parse);
    reveal(parse_items);
    reveal(parse_entries);
    reveal(compressed_body);
    let e = encoding(t);
    match t {
        Tree::Int(i) => {
            lemma_int_span(s, p, i, d);
        },
        Tree::Text(x) => {
            lemma_text_round_trip(s, p, x, d);
        },
        Tree::Array(a) => {
            let w: nat = if a.len() <= 0xFF { 1 } else { 2 };
            lemma_window(s, p, e, 0, 1);
            if a.len() <= 0xFF {
                lemma_window(s, p, e, 1, 2);
            } else {
                lemma_be2(a.len());
                lemma_window(s, p, e, 1, 3);
                assert(e.subrange(1, 3) =~= bytes2(a.len()));
            }
            assert(length_at(s, p + 1, w) == a.len());
            lemma_window(s, p, e, 1 + w, e.len());
            assert(e.subrange((1 + w) as int, e.len() as int) =~= items_encoding(a));
            assert forall|i: int| 0 <= i < a.len() implies decodes(#[trigger] a[i], (d - 1) as nat) by {}
            lemma_items_span(s, p + 1 + w, a, (d - 1) as nat, Seq::empty());
        },
        Tree::Object(m) => {
            let w: nat = if m.len() <= 0xFF { 1 } else { 2 };
            lemma_window(s, p, e, 0, 1);
            if m.len() <= 0xFF {
                lemma_window(s, p, e, 1, 2);
            } else {
                lemma_be2(m.len());
                lemma_window(s, p, e, 1, 3);
                assert(e.subrange(1, 3) =~= bytes2(m.len()));
            }
            assert(length_at(s, p + 1, w) == m.len());
            lemma_window(s, p, e, 1 + w, e.len());
            assert(e.subrange((1 + w) as int, e.len() as int) =~= entries_encoding(m));
            assert forall|i: int| 0 <= i < m.len() implies decodes((#[trigger] m[i]).0, (d - 1) as nat) && decodes(
                m[i].1,
                (d - 1) as nat,
            ) by {}
            lemma_entries_span(s, p + 1 + w, m, (d - 1) as nat, Seq::empty());
        },
        _ => {
            lemma_window(s, p, e, 0, 1);
            if t is Float {
                lemma_window(s, p, e, 1, 9);
            }
        },
    }
}

proof fn lemma_items_span(s: Seq<u8>, q: nat, a: Seq<Tree>, d: nat, acc: Seq<Tree>)
    requires
        forall|i: int| 0 <= i < a.len() ==> decodes(#[trigger] a[i], d),
        occurs_at(s, q, items_encoding(a)),
    ensures
        parse_items(s, q, a.len(), d, acc) is Ok && parse_items(s, q, a.len(), d, acc)->Ok_0.1 == q
            + items_encoding(a).len(),
    decreases a,
{
    reveal(parse);
    reveal(parse_items);
    reveal(parse_entries);
    reveal(compressed_body);
    if a.len() > 0 {
        let e = items_encoding(a);
        let e0 = encoding(a[0]);
        let rest = a.subrange(1, a.len() as int);
        lemma_window(s, q, e, 0, e0.len());
        assert(e.subrange(0, e0.len() as int) =~= e0);
        lemma_window(s, q, e, e0.len(), e.len());
        assert(e.subrange(e0.len() as int, e.len() as int) =~= items_encoding(rest));
        lemma_parse_span(s, q, a[0], d);
        assert forall|i: int| 0 <= i < rest.len() implies decodes(#[trigger] rest[i], d) by {
            assert(rest[i] == a[i + 1]);
        }
        lemma_items_span(s, q + e0.len(), rest, d, acc.push(parse(s, q, d)->Ok_0.0));
    }
}

proof fn lemma_entries_span(s: Seq<u8>, q: nat, m: Seq<(Tree, Tree)>, d: nat, acc: Seq<(Tree, Tree)>)
    requires
        forall|i: int| 0 <= i < m.len() ==> decodes((#[trigger] m[i]).0, d) && decodes(m[i].1, d),
        occurs_at(s, q, entries_encoding(m)),
    ensures
        parse_entries(s, q, m.len(), d, acc) is Ok && parse_entries(s, q, m.len(), d, acc)->Ok_0.1 == q
            + entries_encoding(m).len(),
    decreases m,
{
    reveal(parse);
    reveal(parse_items);
    reveal(parse_entries);
    reveal(compressed_body);
    if m.len() > 0 {
        let e = entries_encoding(m);
        let ek = encoding(m[0].0);
        let ev = encoding(m[0].1);
        let rest = m.subrange(1, m.len() as int);
        lemma_window(s, q, e, 0, ek.len());
        assert(e.subrange(0, ek.len() as int) =~= ek);
        lemma_parse_span(s, q, m[0].0, d);
        lemma_window(s, q, e, ek.len(), ek.len() + ev.len());
        assert(e.subrange(ek.len() as int, (ek.len() + ev.len()) as int) =~= ev);
        lemma_parse_span(s, q + ek.len(), m[0].1, d);
        lemma_window(s, q, e, ek.len() + ev.len(), e.len());
        assert(e.subrange((ek.len() + ev.len()) as int, e.len() as int) =~= entries_encoding(rest));
        assert forall|i: int| 0 <= i < rest.len() implies decodes((#[trigger] rest[i]).0, d) && decodes(rest[i].1, d) by {
            assert(rest[i] == m[i + 1]);
        }
        let k = parse(s, q, d)->Ok_0.0;
        let v = parse(s, q + ek.len(), d)->Ok_0.0;
        lemma_entries_span(s, q + ek.len() + ev.len(), rest, d, insert_entry(acc, key_of(k), v));
    }
}

/// `s` ends after `p` inside `e`: the bytes from `p` on are a proper prefix of `e`.
pub open spec fn cut_at(s: Seq<u8>, p: nat, e: Seq<u8>) -> bool {
    p <= s.len() < p + e.len() && s.subrange(p as int, s.len() as int) == e.subrange(0, s.len() - p)
}

proof fn lemma_cut_window(s: Seq<u8>, p: nat, e: Seq<u8>, a: nat, b: nat)
    requires
        cut_at(s, p, e),
        a <= b <= s.len() - p,
    ensures
        slice(s, p + a, p + b) == e.subrange(a as int, b as int),
        a < s.len() - p ==> s[(p + a) as int] == e[a as int],
{
    assert(s.subrange((p + a) as int, (p + b) as int) =~= e.subrange(a as int, b as int)) by {
        assert forall|i: int| 0 <= i < b - a implies #[trigger] s[p + a + i] == e[a + i] by {
            assert(s.subrange(p as int, s.len() as int)[a + i] == s[p + a + i]);
            assert(e.subrange(0, s.len() - p)[a + i] == e[a + i]);
        }
        assert forall|i: int| 0 <= i < b - a implies #[trigger] s.subrange((p + a) as int, (p + b) as int)[i]
            == e.subrange(a as int, b as int)[i] by {
            assert(s[p + a + i] == e[a + i]);
        }
    }
    if a < s.len() - p {
        assert(s.subrange(p as int, s.len() as int)[a as int] == s[(p + a) as int]);
        assert(e.subrange(0, s.len() - p)[a as int] == e[a as int]);
    }
}

/// Splits a cut inside `e0 + e1`: either `e0` is whole and the cut is in `e1`,
/// or the cut is in `e0`.
proof fn lemma_cut_split(s: Seq<u8>, q: nat, e0: Seq<u8>, e1: Seq<u8>)
    requires
        cut_at(s, q, e0 + e1),
    ensures
        s.len() >= q + e0.len() ==> occurs_at(s, q, e0) && cut_at(s, q + e0.len(), e1),
        s.len() < q + e0.len() ==> cut_at(s, q, e0),
{
    let e = e0 + e1;
    if s.len() >= q + e0.len() {
        lemma_cut_window(s, q, e, 0, e0.len());
        assert(e.subrange(0, e0.len() as int) =~= e0);
        lemma_cut_window(s, q, e, e0.len(), (s.len() - q) as nat);
        assert(e.subrange(e0.len() as int, s.len() - q) =~= e1.subrange(0, s.len() - (q + e0.len())));
        assert(s.subrange((q + e0.len()) as int, s.len() as int) =~= slice(s, q + e0.len(), s.len()));
    } else {
        lemma_cut_window(s, q, e, 0, (s.len() - q) as nat);
        assert(e.subrange(0, s.len() - q) =~= e0.subrange(0, s.len() - q));
        assert(s.subrange(q as int, s.len() as int) =~= slice(s, q, s.len()));
    }
}

#[verifier::spinoff_prover]
#[verifier::rlimit(80)]
proof fn lemma_cut_text(s: Seq<u8>, p: nat, x: Seq<u8>, d: nat)
    requires
        x.len() <= 0xFFFF,
        cut_at(s, p, text_encoding(x)),
    ensures
        parse(s, p, d) == Err::<(Tree, nat), CodecError>(CodecError::Truncated),
{
    reveal(parse);
    reveal(parse_items);
    reveal(parse_entries);
    reveal(compressed_body);
    let e = text_encoding(x);
    if p < s.len() {
        lemma_cut_window(s, p, e, 0, 1);
        if x.len() <= 0xFF {
            if p + 2 <= s.len() {
                lemma_cut_window(s, p, e, 1, 2);
            }
        } else if p + 3 <= s.len() {
            lemma_be2(x.len());
            lemma_cut_window(s, p, e, 1, 3);
            assert(e.subrange(1, 3) =~= bytes2(x.len()));
        }
    }
}

#[verifier::spinoff_prover]
#[verifier::rlimit(80)]
proof fn lemma_cut(s: Seq<u8>, p: nat, t: Tree, d: nat)
    requires
        decodes(t, d),
        cut_at(s, p, encoding(t)),
    ensures
        parse(s, p, d) == Err::<(Tree, nat), CodecError>(CodecError::Truncated),
    decreases t,
{
    reveal(parse);
    reveal(parse_items);
    reveal(parse_entries);
    reveal(compressed_body);
    let e = encoding(t);
    if p < s.len() {
        lemma_cut_window(s, p, e, 0, 1);
        match t {
            Tree::Int(i) => {
                if -0x80 <= i < 0x80 {
                } else if -0x8000 <= i < 0x8000 {
                } else if -0x8000_0000 <= i < 0x8000_0000 {
                } else {
                }
            },
            Tree::Text(x) => {
                lemma_cut_text(s, p, x, d);
            },
            Tree::Array(a) => {
                let w: nat = if a.len() <= 0xFF { 1 } else { 2 };
                if p + 1 + w <= s.len() {
                    if a.len() <= 0xFF {
                        lemma_cut_window(s, p, e, 1, 2);
                    } else {
                        lemma_be2(a.len());
                        lemma_cut_window(s, p, e, 1, 3);
                        assert(e.subrange(1, 3) =~= bytes2(a.len()));
                    }
                    assert(length_at(s, p + 1, w) == a.len());
                    let h = count_header(tags::TYPE_ARRAY, tags::TYPE_LONG_ARRAY, a.len());
                    assert(h.len() == 1 + w);
                    lemma_cut_split(s, p, h, items_encoding(a));
                    assert forall|i: int| 0 <= i < a.len() implies decodes(#[trigger] a[i], (d - 1) as nat) by {}
                    lemma_cut_items(s, p + 1 + w, a, (d - 1) as nat, Seq::empty());
                }
            },
            Tree::Object(m) => {
                let w: nat = if m.len() <= 0xFF { 1 } else { 2 };
                if p + 1 + w <= s.len() {
                    if m.len() <= 0xFF {
                        lemma_cut_window(s, p, e, 1, 2);
                    } else {
                        lemma_be2(m.len());
                        lemma_cut_window(s, p, e, 1, 3);
                        assert(e.subrange(1, 3) =~= bytes2(m.len()));
                    }
                    assert(length_at(s, p + 1, w) == m.len());
                    let h = count_header(tags::TYPE_MAP, tags::TYPE_LONG_MAP, m.len());
                    assert(h.len() == 1 + w);
                    lemma_cut_split(s, p, h, entries_encoding(m));
                    assert forall|i: int| 0 <= i < m.len() implies decodes((#[trigger] m[i]).0, (d - 1) as nat)
                        && decodes(m[i].1, (d - 1) as nat) by {}
                    lemma_cut_entries(s, p + 1 + w, m, (d - 1) as nat, Seq::empty());
                }
            },
            _ => {},
        }
    }
}

proof fn lemma_cut_items(s: Seq<u8>, q: nat, a: Seq<Tree>, d: nat, acc: Seq<Tree>)
    requires
        forall|i: int| 0 <= i < a.len() ==> decodes(#[trigger] a[i], d),
        cut_at(s, q, items_encoding(a)),
    ensures
        parse_items(s, q, a.len(), d, acc) == Err::<(Seq<Tree>, nat), CodecError>(CodecError::Truncated),
    decreases a,
{
    reveal(parse);
    reveal(parse_items);
    reveal(parse_entries);
    reveal(compressed_body);
    let e0 = encoding(a[0]);
    let rest = a.subrange(1, a.len() as int);
    lemma_cut_split(s, q, e0, items_encoding(rest));
    if s.len() >= q + e0.len() {
        lemma_parse_span(s, q, a[0], d);
        assert forall|i: int| 0 <= i < rest.len() implies decodes(#[trigger] rest[i], d) by {
            assert(rest[i] == a[i + 1]);
        }
        lemma_cut_items(s, q + e0.len(), rest, d, acc.push(parse(s, q, d)->Ok_0.0));
    } else {
        lemma_cut(s, q, a[0], d);
    }
}

proof fn lemma_cut_entries(s: Seq<u8>, q: nat, m: Seq<(Tree, Tree)>, d: nat, acc: Seq<(Tree, Tree)>)
    requires
        forall|i: int| 0 <= i < m.len() ==> decodes((#[trigger] m[i]).0, d) && decodes(m[i].1, d),
        cut_at(s, q, entries_encoding(m)),
    ensures
        parse_entries(s, q, m.len(), d, acc) == Err::<(Seq<(Tree, Tree)>, nat), CodecError>(
            CodecError::Truncated,
        ),
    decreases m,
{
    reveal(parse);
    reveal(parse_items);
    reveal(parse_entries);
    reveal(compressed_body);
    let k = m[0].0;
    let v = m[0].1;
    let ek = encoding(k);
    let ev = encoding(v);
    let rest = m.subrange(1, m.len() as int);
    assert(entries_encoding(m) == ek + (ev + entries_encoding(rest))) by {
        assert(entries_encoding(m) =~= ek + (ev + entries_encoding(rest)));
    }
    lemma_cut_split(s, q, ek, ev + entries_encoding(rest));
    if s.len() >= q + ek.len() {
        lemma_parse_span(s, q, k, d);
        lemma_cut_split(s, q + ek.len(), ev, entries_encoding(rest));
        if s.len() >= q + ek.len() + ev.len() {
            lemma_parse_span(s, q + ek.len(), v, d);
            assert forall|i: int| 0 <= i < rest.len() implies decodes((#[trigger] rest[i]).0, d) && decodes(
                rest[i].1,
                d,
            ) by {
                assert(rest[i] == m[i + 1]);
            }
            let kd = parse(s, q, d)->Ok_0.0;
            let vd = parse(s, q + ek.len(), d)->Ok_0.0;
            lemma_cut_entries(s, q + ek.len() + ev.len(), rest, d, insert_entry(acc, key_of(kd), vd));
        } else {
            lemma_cut(s, q + ek.len(), v, d);
        }
    } else {
        lemma_cut(s, q, k, d);
    }
}

/// Every proper prefix of the encoding of a well-formed, encodable tree nested
/// at most `d` deep fails with `Truncated`.
pub proof fn lemma_truncated_prefix(t: Tree, k: nat, d: nat)
    requires
        decodes(t, d),
        k < encoding(t).len(),
    ensures
        parse(encoding(t).subrange(0, k as int), 0, d) == Err::<(Tree, nat), CodecError>(CodecError::Truncated),
{
    let s = encoding(t).subrange(0, k as int);
    assert(s.subrange(0, s.len() as int) =~= encoding(t).subrange(0, s.len() - 0));
    lemma_cut(s, 0, t, d);
}

proof fn lemma_same_key_equiv(a: Tree, b: Tree, c: Tree)
    ensures
        same_key(a, b) ==> same_key(b, a),
        same_key(a, b) && same_key(b, c) ==> same_key(a, c),
{
}

proof fn lemma_key_index(m: Seq<(Tree, Tree)>, k: Tree, i: int)
    requires
        0 <= i,
    ensures
        key_index_from(m, k, i) == -1 || (i <= key_index_from(m, k, i) < m.len() && same_key(
            m[key_index_from(m, k, i)].0,
            k,
        )),
        key_index_from(m, k, i) == -1 ==> forall|j: int| i <= j < m.len() ==> !same_key(#[trigger] m[j].0, k),
    decreases m.len() - i,
{
    if i < m.len() {
        lemma_key_index(m, k, i + 1);
    }
}

proof fn lemma_insert_unique(m: Seq<(Tree, Tree)>, k: Tree, v: Tree)
    requires
        keys_unique(m),
        forall|i: int| 0 <= i < m.len() ==> maps_unique((#[trigger] m[i]).0) && maps_unique(m[i].1),
        maps_unique(k),
        maps_unique(v),
    ensures
        keys_unique(insert_entry(m, k, v)),
        forall|i: int|
            0 <= i < insert_entry(m, k, v).len() ==> maps_unique((#[trigger] insert_entry(m, k, v)[i]).0)
                && maps_unique(insert_entry(m, k, v)[i].1),
{
    lemma_key_index(m, k, 0);
    let r = insert_entry(m, k, v);
    let x = key_index_from(m, k, 0);
    assert forall|i: int, j: int| 0 <= i < j < r.len() implies !same_key(r[i].0, r[j].0) by {
        if x < 0 {
            if j == m.len() {
                assert(!same_key(m[i].0, k));
            }
        } else {
            if i == x {
                lemma_same_key_equiv(m[x].0, k, m[j].0);
                lemma_same_key_equiv(k, m[j].0, m[x].0);
                lemma_same_key_equiv(m[x].0, m[j].0, k);
            } else if j == x {
                lemma_same_key_equiv(m[i].0, k, m[x].0);
                lemma_same_key_equiv(m[x].0, k, m[i].0);
                lemma_same_key_equiv(k, m[x].0, m[i].0);
            }
        }
    }
}

#[verifier::spinoff_prover]
#[verifier::rlimit(80)]
proof fn lemma_parse_unique(s: Seq<u8>, p: nat, d: nat)
    ensures
        parse(s, p, d) is Ok ==> maps_unique(parse(s, p, d)->Ok_0.0),
    decreases d, 0nat, 0nat,
{
    reveal(parse);
    reveal(parse_items);
    reveal(parse_entries);
    reveal(compressed_body);
    if p < s.len() {
        let tag = s[p as int];
        let q = p + 1;
        let w = prefix_width(tag);
        if q + w <= s.len() {
            let n = length_at(s, q, w);
            let t = slice(s, q + w, q + w + n);
            let a = byte_array(t);
            assert forall|i: int| 0 <= i < a.len() implies maps_unique(#[trigger] a[i]) by {}
        }
        if d > 0 {
            let n = length_at(s, q, w);
            lemma_items_unique(s, q + w, n, (d - 1) as nat, Seq::empty());
            lemma_entries_unique(s, q + w, n, (d - 1) as nat, Seq::empty());
            lemma_compressed_unique(s, q + 1, (d - 1) as nat);
        }
    }
}

proof fn lemma_items_unique(s: Seq<u8>, p: nat, n: nat, d: nat, acc: Seq<Tree>)
    requires
        forall|i: int| 0 <= i < acc.len() ==> maps_unique(#[trigger] acc[i]),
    ensures
        parse_items(s, p, n, d, acc) is Ok ==> forall|i: int|
            0 <= i < parse_items(s, p, n, d, acc)->Ok_0.0.len() ==> maps_unique(
                #[trigger] parse_items(s, p, n, d, acc)->Ok_0.0[i],
            ),
    decreases d, 1nat, n,
{
    reveal(parse);
    reveal(parse_items);
    reveal(parse_entries);
    reveal(compressed_body);
    if n > 0 {
        lemma_parse_unique(s, p, d);
        if let Ok((v, e)) = parse(s, p, d) {
            let acc2 = acc.push(v);
            assert forall|i: int| 0 <= i < acc2.len() implies maps_unique(#[trigger] acc2[i]) by {
                if i < acc.len() {
                    assert(acc2[i] == acc[i]);
                }
            }
            lemma_items_unique(s, e, (n - 1) as nat, d, acc2);
        }
    }
}

proof fn lemma_entries_unique(s: Seq<u8>, p: nat, n: nat, d: nat, acc: Seq<(Tree, Tree)>)
    requires
        keys_unique(acc),
        forall|i: int| 0 <= i < acc.len() ==> maps_unique((#[trigger] acc[i]).0) && maps_unique(acc[i].1),
    ensures
        parse_entries(s, p, n, d, acc) is Ok ==> maps_unique(Tree::Object(parse_entries(s, p, n, d, acc)->Ok_0.0)),
    decreases d, 1nat, n,
{
    reveal(parse);
    reveal(parse_items);
    reveal(parse_entries);
    reveal(compressed_body);
    if n == 0 {
        assert(maps_unique(Tree::Object(acc)));
    } else {
        lemma_parse_unique(s, p, d);
        if let Ok((k, e1)) = parse(s, p, d) {
            lemma_parse_unique(s, e1, d);
            if let Ok((v, e2)) = parse(s, e1, d) {
                assert(maps_unique(key_of(k)));
                lemma_insert_unique(acc, key_of(k), v);
                lemma_entries_unique(s, e2, (n - 1) as nat, d, insert_entry(acc, key_of(k), v));
            }
        }
    }
}

proof fn lemma_compressed_unique(s: Seq<u8>, p: nat, d: nat)
    ensures
        compressed_body(s, p, d) is Ok ==> maps_unique(compressed_body(s, p, d)->Ok_0.0),
    decreases d, 1nat, 0nat,
{
    reveal(parse);
    reveal(parse_items);
    reveal(parse_entries);
    reveal(compressed_body);
    if let Ok((inner, e)) = parse(s, p, d) {
        if let Some(c) = payload_bytes(inner) {
            if let Some(x) = zlib_inflated(c) {
                lemma_parse_unique(x, 0, d);
            }
        }
    }
}

/// Every map that a decode yields has distinct keys.
pub proof fn lemma_decoded_maps_unique(s: Seq<u8>, p: nat, d: nat)
    ensures
        parse(s, p, d) is Ok ==> maps_unique(parse(s, p, d)->Ok_0.0),
{
    lemma_parse_unique(s, p, d);
}

} // verus!
