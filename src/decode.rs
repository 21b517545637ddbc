//! Decoding: one tag byte, then the payload that the tag frames.
use vstd::prelude::*;
use crate::tags;
use crate::error::CodecError;
use crate::value::{Value, Number, Tree};
use crate::protocol::BinaryProtocol;
use crate::wire::{
    parse, parse_items, parse_entries, compressed_body, payload_bytes, insert_entry, key_of, same_key, maps_unique,
    byte_array, length_at, };
use crate::text::{magnitude_is_double_exact, magnitude, decimal_i64, decimal_u64, nonfinite_word, key_of_value, widen_single_bits};
use crate::codec::encode_value;
use crate::laws::lemma_decoded_maps_unique;
use crate::compress::{inflate, zlib_inflated};
use crate::datetime::rfc3339_of;

verus! {

/// How many levels of containers `read_value` decodes below the top.
pub const DEFAULT_MAX_DEPTH: usize = 128;

/// The models of a sequence of values.
pub open spec fn values_view(a: Seq<Value>) -> Seq<Tree> {
    Seq::new(a.len(), |i: int| a[i]@)
}

/// The models of a sequence of map entries.
pub open spec fn entries_view(m: Seq<(Value, Value)>) -> Seq<(Tree, Tree)> {
    Seq::new(m.len(), |i: int| (m[i].0@, m[i].1@))
}

pub proof fn lemma_array_view(a: Vec<Value>)
    ensures
        Value::Array(a)@ == Tree::Array(values_view(a@)),
{
    assert(Value::Array(a)@->Array_0 =~= values_view(a@));
}

pub proof fn lemma_object_view(m: Vec<(Value, Value)>)
    ensures
        Value::Object(m)@ == Tree::Object(entries_view(m@)),
{
    assert(Value::Object(m)@->Object_0 =~= entries_view(m@));
}

proof fn lemma_items_unfold(s: Seq<u8>, p: nat, n: nat, d: nat, acc: Seq<Tree>)
    ensures
        parse_items(s, p, n, d, acc) == (if n == 0 {
            Ok((acc, p))
        } else {
            match parse(s, p, d) {
                Err(er) => Err(er),
                Ok((v, e)) => parse_items(s, e, (n - 1) as nat, d, acc.push(v)),
            }
        }),
{
    reveal(parse);
    reveal(parse_items);
    reveal(parse_entries);
    reveal(compressed_body);
}

proof fn lemma_entries_unfold(s: Seq<u8>, p: nat, n: nat, d: nat, acc: Seq<(Tree, Tree)>)
    ensures
        parse_entries(s, p, n, d, acc) == (if n == 0 {
            Ok((acc, p))
        } else {
            match parse(s, p, d) {
                Err(er) => Err(er),
                Ok((k, e1)) => match parse(s, e1, d) {
                    Err(er) => Err(er),
                    Ok((v, e2)) => parse_entries(s, e2, (n - 1) as nat, d, insert_entry(acc, key_of(k), v)),
                },
            }
        }),
{
    reveal(parse);
    reveal(parse_items);
    reveal(parse_entries);
    reveal(compressed_body);
}

proof fn lemma_compressed_unfold(s: Seq<u8>, p: nat, d: nat)
    ensures
        compressed_body(s, p, d) == (match parse(s, p, d) {
            Err(er) => Err(er),
            Ok((inner, e)) => match payload_bytes(inner) {
                None => Err(CodecError::DecompressionFailed),
                Some(c) => match zlib_inflated(c) {
                    None => Err(CodecError::DecompressionFailed),
                    Some(x) => match parse(x, 0, d) {
                        Ok((v, _)) => Ok((v, e)),
                        Err(er) => Err(er),
                    },
                },
            },
        }),
{
    reveal(parse);
    reveal(parse_items);
    reveal(parse_entries);
    reveal(compressed_body);
}

/// The values of a byte run: one small number per byte.
fn byte_values(data: &Vec<u8>) -> (r: Vec<Value>)
    ensures
        values_view(r@) == byte_array(data@),
{
    let mut out: Vec<Value> = Vec::new();
    let mut i: usize = 0;
    while i < data.len()
        invariant
            i <= data.len(),
            out@.len() == i,
            forall|j: int| 0 <= j < i ==> (#[trigger] out@[j])@ == Tree::Int(data@[j] as int),
        decreases data.len() - i,
    {
        let x = Value::Number(Number::UInt(data[i] as u64));
        assert(x@ == Tree::Int(data@[i as int] as int));
        out.push(x);
        i = i + 1;
    }
    assert(values_view(out@) =~= byte_array(data@));
    out
}

/// A number in its canonical form: unsigned when not negative.
pub fn int_value(v: i64) -> (r: Value)
    ensures
        r@ == Tree::Int(v as int),
{
    if v >= 0 {
        Value::Number(Number::UInt(v as u64))
    } else {
        Value::Number(Number::Int(v))
    }
}

fn same_bytes(a: &Vec<u8>, b: &Vec<u8>) -> (r: bool)
    ensures
        r == (a@ == b@),
{
    if a.len() != b.len() {
        return false;
    }
    let mut i: usize = 0;
    while i < a.len()
        invariant
            a.len() == b.len(),
            i <= a.len(),
            a@.subrange(0, i as int) == b@.subrange(0, i as int),
        decreases a.len() - i,
    {
        if a[i] != b[i] {
            assert(a@[i as int] != b@[i as int]);
            return false;
        }
        i = i + 1;
        assert(a@.subrange(0, i as int) =~= b@.subrange(0, i as int)) by {
            assert(a@.subrange(0, i - 1) == b@.subrange(0, i - 1));
            assert forall|j: int| 0 <= j < i implies a@[j] == b@[j] by {
                if j < i - 1 {
                    assert(a@.subrange(0, i - 1)[j] == b@.subrange(0, i - 1)[j]);
                }
            }
        }
    }
    assert(a@ =~= a@.subrange(0, i as int));
    assert(b@ =~= b@.subrange(0, i as int));
    true
}

/// Whether two keys name the same entry.
pub fn same_key_of(a: &Value, b: &Value) -> (r: bool)
    ensures
        r == same_key(a@, b@),
{
    match (a, b) {
        (Value::Text(x), Value::Text(y)) => same_bytes(x, y),
        (Value::Number(Number::Float(x)), Value::Number(Number::Float(y))) => *x == *y,
        (Value::Array(_), Value::Array(_)) | (Value::Object(_), Value::Object(_)) => {
            match (encode_value(a), encode_value(b)) {
                (Ok(x), Ok(y)) => same_bytes(&x, &y),
                _ => false,
            }
        },
        _ => false,
    }
}

/// Inserts an entry: replaces the value of an equal key in place, else appends.
pub fn insert_entry_into(m: &mut Vec<(Value, Value)>, k: Value, v: Value)
    ensures
        entries_view(final(m)@) == insert_entry(entries_view(old(m)@), k@, v@),
{
    let ghost mv = entries_view(old(m)@);
    let mut i: usize = 0;
    while i < m.len()
        invariant
            m@ == old(m)@,
            i <= m.len(),
            mv == entries_view(m@),
            crate::wire::key_index_from(mv, k@, 0) == crate::wire::key_index_from(mv, k@, i as int),
        decreases m.len() - i,
    {
        if same_key_of(&m[i].0, &k) {
            m[i] = (k, v);
            proof {
                assert(entries_view(m@) =~= insert_entry(mv, k@, v@));
            }
            return;
        }
        i = i + 1;
    }
    m.push((k, v));
    proof {
        assert(entries_view(m@) =~= insert_entry(mv, k@, v@));
    }
}

proof fn lemma_not_bytes(t: Seq<Tree>, i: int)
    requires
        0 <= i < t.len(),
        !(t[i] is Int && 0 <= t[i]->Int_0 <= 0xFF),
    ensures
        payload_bytes(Tree::Array(t)) is None,
{
}

/// The bytes a compressed block's payload value holds.
fn payload_of(v: Value) -> (r: Option<Vec<u8>>)
    ensures
        match r {
            Some(c) => payload_bytes(v@) == Some(c@),
            None => payload_bytes(v@) is None,
        },
{
    let ghost model = v@;
    match v {
        Value::Text(s) => Some(s),
        Value::Array(a) => {
            proof {
                lemma_array_view(a);
            }
            let ghost t = values_view(a@);
            assert(model == Tree::Array(t));
            let mut out: Vec<u8> = Vec::new();
            let mut i: usize = 0;
            let mut bad = false;
            while i < a.len()
                invariant_except_break
                    !bad,
                    out@.len() == i,
                    forall|j: int| 0 <= j < i ==> (#[trigger] t[j] is Int) && 0 <= t[j]->Int_0 <= 0xFF
                        && out@[j] == t[j]->Int_0 as u8,
                invariant
                    model == Tree::Array(t),
                    t == values_view(a@),
                    i <= a.len(),
                ensures
                    bad ==> payload_bytes(model) is None,
                    !bad ==> i == a.len() && out@.len() == i && forall|j: int| 0 <= j < i ==> (#[trigger] t[j] is Int)
                        && 0 <= t[j]->Int_0 <= 0xFF && out@[j] == t[j]->Int_0 as u8,
                decreases a.len() - i,
            {
                proof {
                    assert(t[i as int] == a@[i as int]@);
                }
                let b: u8 = match &a[i] {
                    Value::Number(Number::UInt(u)) => if *u <= 0xFF { *u as u8 } else { 0 },
                    Value::Number(Number::Int(x)) => if 0 <= *x && *x <= 0xFF { *x as u8 } else { 0 },
                    _ => 0,
                };
                let fits = match &a[i] {
                    Value::Number(Number::UInt(u)) => *u <= 0xFF,
                    Value::Number(Number::Int(x)) => 0 <= *x && *x <= 0xFF,
                    _ => false,
                };
                if !fits {
                    proof {
                        lemma_not_bytes(t, i as int);
                    }
                    bad = true;
                    break;
                }
                out.push(b);
                i = i + 1;
            }
            if bad {
                return None;
            }
            proof {
                assert(out@ =~= Seq::new(t.len(), |j: int| t[j]->Int_0 as u8));
            }
            Some(out)
        },
        _ => None,
    }
}

impl BinaryProtocol {
    /// Decodes the value at the read position, with at most `depth` levels of
    /// containers and compressed blocks below it.
    #[verifier::spinoff_prover]
    #[verifier::rlimit(100)]
    pub fn read_value_limited(&mut self, depth: usize) -> (r: Result<Value, CodecError>)
        requires
            old(self).wf(),
        ensures
            final(self).wf(),
            final(self).bytes() == old(self).bytes(),
            match r {
                Ok(v) => parse(old(self).bytes(), old(self).pos(), depth as nat) == Ok::<(Tree, nat), CodecError>(
                    (v@, final(self).pos()),
                ),
                Err(e) => parse(old(self).bytes(), old(self).pos(), depth as nat) == Err::<(Tree, nat), CodecError>(e),
            },
        decreases depth, 0nat,
    {
        let ghost s = self.bytes();
        let ghost p = self.pos();
        proof {
            reveal(parse);
        }
        let tag = self.read_type()?;
        if tag == tags::TYPE_PASS || tag == tags::TYPE_NULL {
            Ok(Value::Null)
        } else if tag == tags::TYPE_BOOLEAN_FALSE {
            Ok(Value::Bool(false))
        } else if tag == tags::TYPE_BOOLEAN_TRUE {
            Ok(Value::Bool(true))
        } else if tag == tags::TYPE_U1 {
            let u = self.read_u1()?;
            Ok(Value::Number(Number::UInt(u as u64)))
        } else if tag == tags::TYPE_S1 {
            let x = self.read_s1()?;
            Ok(int_value(x as i64))
        } else if tag == tags::TYPE_U2 {
            let u = self.read_u2()?;
            Ok(Value::Number(Number::UInt(u as u64)))
        } else if tag == tags::TYPE_S2 {
            let x = self.read_s2()?;
            Ok(int_value(x as i64))
        } else if tag == tags::TYPE_U4 {
            let u = self.read_u4()?;
            Ok(Value::Number(Number::UInt(u as u64)))
        } else if tag == tags::TYPE_S4 {
            let x = self.read_s4()?;
            Ok(int_value(x as i64))
        } else if tag == tags::TYPE_U8 {
            let u = self.read_u8()?;
            if magnitude_is_double_exact(u) {
                Ok(Value::Number(Number::UInt(u)))
            } else {
                Ok(Value::Text(decimal_u64(u)))
            }
        } else if tag == tags::TYPE_S8 {
            let x = self.read_s8()?;
            if magnitude_is_double_exact(magnitude(x)) {
                Ok(int_value(x))
            } else {
                Ok(Value::Text(decimal_i64(x)))
            }
        } else if tag == tags::TYPE_FLOAT {
            let b = self.read_float()?;
            if (b / 0x80_0000) % 0x100 == 0xFF {
                Ok(Value::Text(nonfinite_word(b >= 0x8000_0000, b % 0x80_0000 != 0)))
            } else {
                Ok(Value::Number(Number::Float(widen_single_bits(b))))
            }
        } else if tag == tags::TYPE_DOUBLE {
            let b = self.read_double()?;
            if (b / 0x10_0000_0000_0000) % 2048 != 2047 {
                Ok(Value::Number(Number::Float(b)))
            } else {
                Ok(Value::Text(nonfinite_word(b >= 0x8000_0000_0000_0000, b % 0x10_0000_0000_0000 != 0)))
            }
        } else if tag == tags::TYPE_DATETIME {
            let secs = self.read_datetime()?;
            Ok(Value::Text(rfc3339_of(secs)))
        } else if tag == tags::TYPE_STRING {
            let t = self.read_string()?;
            Ok(Value::Text(t))
        } else if tag == tags::TYPE_LONG_STRING {
            let t = self.read_long_string()?;
            Ok(Value::Text(t))
        } else if tag == tags::TYPE_BINARY_DATA_U1 || tag == tags::TYPE_BINARY_DATA_U2 || tag
            == tags::TYPE_BINARY_DATA_U4 {
            let data = if tag == tags::TYPE_BINARY_DATA_U1 {
                self.read_binary_data_u1()?
            } else if tag == tags::TYPE_BINARY_DATA_U2 {
                self.read_binary_data_u2()?
            } else {
                self.read_binary_data_u4()?
            };
            let out = byte_values(&data);
            proof {
                lemma_array_view(out);
            }
            Ok(Value::Array(out))
        } else if tag == tags::TYPE_ARRAY || tag == tags::TYPE_LONG_ARRAY {
            if depth == 0 {
                return Err(CodecError::DepthExceeded);
            }
            let a = if tag == tags::TYPE_ARRAY {
                self.read_array(depth - 1)?
            } else {
                self.read_long_array(depth - 1)?
            };
            proof {
                lemma_array_view(a);
            }
            Ok(Value::Array(a))
        } else if tag == tags::TYPE_MAP || tag == tags::TYPE_LONG_MAP {
            if depth == 0 {
                return Err(CodecError::DepthExceeded);
            }
            let m = if tag == tags::TYPE_MAP {
                self.read_map(depth - 1)?
            } else {
                self.read_long_map(depth - 1)?
            };
            proof {
                lemma_object_view(m);
            }
            Ok(Value::Object(m))
        } else if tag == tags::TYPE_COMPRESSED {
            if depth == 0 {
                return Err(CodecError::DepthExceeded);
            }
            self.read_compressed(depth - 1)
        } else {
            Err(CodecError::UnknownType(tag))
        }
    }

    /// Decodes `n` values in sequence, each with at most `depth` levels below it.
    fn read_items(&mut self, n: usize, depth: usize) -> (r: Result<Vec<Value>, CodecError>)
        requires
            old(self).wf(),
        ensures
            final(self).wf(),
            final(self).bytes() == old(self).bytes(),
            match r {
                Ok(a) => parse_items(old(self).bytes(), old(self).pos(), n as nat, depth as nat, Seq::empty())
                    == Ok::<(Seq<Tree>, nat), CodecError>((values_view(a@), final(self).pos())),
                Err(e) => parse_items(old(self).bytes(), old(self).pos(), n as nat, depth as nat, Seq::empty())
                    == Err::<(Seq<Tree>, nat), CodecError>(e),
            },
        decreases depth, 1nat,
    {
        let ghost s = self.bytes();
        let ghost start = parse_items(s, self.pos(), n as nat, depth as nat, Seq::empty());
        let mut out: Vec<Value> = Vec::new();
        proof {
            assert(values_view(out@) =~= Seq::empty());
        }
        let mut i: usize = 0;
        let mut failure: Option<CodecError> = None;
        while i < n
            invariant_except_break
                failure is None,
                start == parse_items(s, self.pos(), (n - i) as nat, depth as nat, values_view(out@)),
            invariant
                self.wf(),
                self.bytes() == s,
                i <= n,
            ensures
                self.wf(),
                self.bytes() == s,
                match failure {
                    None => i == n && start == parse_items(s, self.pos(), 0, depth as nat, values_view(out@)),
                    Some(e) => start == Err::<(Seq<Tree>, nat), CodecError>(e),
                },
            decreases n - i,
        {
            proof {
                lemma_items_unfold(s, self.pos(), (n - i) as nat, depth as nat, values_view(out@));
            }
            match self.read_value_limited(depth) {
                Ok(v) => {
                    proof {
                        assert(values_view(out@).push(v@) =~= values_view(out@.push(v)));
                    }
                    out.push(v);
                    i = i + 1;
                },
                Err(e) => {
                    failure = Some(e);
                    break;
                },
            }
        }
        if let Some(e) = failure {
            return Err(e);
        }
        proof {
            lemma_items_unfold(s, self.pos(), 0, depth as nat, values_view(out@));
        }
        Ok(out)
    }

    /// Decodes `n` key/value pairs into a map, each part with at most `depth`
    /// levels below it.
    #[verifier::spinoff_prover]
    #[verifier::rlimit(60)]
    fn read_entries(&mut self, n: usize, depth: usize) -> (r: Result<Vec<(Value, Value)>, CodecError>)
        requires
            old(self).wf(),
        ensures
            final(self).wf(),
            final(self).bytes() == old(self).bytes(),
            match r {
                Ok(m) => parse_entries(old(self).bytes(), old(self).pos(), n as nat, depth as nat, Seq::empty())
                    == Ok::<(Seq<(Tree, Tree)>, nat), CodecError>((entries_view(m@), final(self).pos())),
                Err(e) => parse_entries(old(self).bytes(), old(self).pos(), n as nat, depth as nat, Seq::empty())
                    == Err::<(Seq<(Tree, Tree)>, nat), CodecError>(e),
            },
        decreases depth, 1nat,
    {
        let ghost s = self.bytes();
        let ghost start = parse_entries(s, self.pos(), n as nat, depth as nat, Seq::empty());
        let mut out: Vec<(Value, Value)> = Vec::new();
        proof {
            assert(entries_view(out@) =~= Seq::empty());
        }
        let mut i: usize = 0;
        let mut failure: Option<CodecError> = None;
        while i < n
            invariant_except_break
                failure is None,
                start == parse_entries(s, self.pos(), (n - i) as nat, depth as nat, entries_view(out@)),
            invariant
                self.wf(),
                self.bytes() == s,
                i <= n,
            ensures
                self.wf(),
                self.bytes() == s,
                match failure {
                    None => i == n && start == parse_entries(s, self.pos(), 0, depth as nat, entries_view(out@)),
                    Some(e) => start == Err::<(Seq<(Tree, Tree)>, nat), CodecError>(e),
                },
            decreases n - i,
        {
            proof {
                lemma_entries_unfold(s, self.pos(), (n - i) as nat, depth as nat, entries_view(out@));
            }
            let k = match self.read_value_limited(depth) {
                Ok(k) => k,
                Err(e) => {
                    failure = Some(e);
                    break;
                },
            };
            let v = match self.read_value_limited(depth) {
                Ok(v) => v,
                Err(e) => {
                    failure = Some(e);
                    break;
                },
            };
            let kt = key_of_value(k);
            insert_entry_into(&mut out, kt, v);
            i = i + 1;
        }
        if let Some(e) = failure {
            return Err(e);
        }
        proof {
            lemma_entries_unfold(s, self.pos(), 0, depth as nat, entries_view(out@));
        }
        Ok(out)
    }

    /// Decodes an array with a 1-byte count whose elements have at most
    /// `depth` levels below them.
    pub fn read_array(&mut self, depth: usize) -> (r: Result<Vec<Value>, CodecError>)
        requires
            old(self).wf(),
        ensures
            final(self).wf(),
            final(self).bytes() == old(self).bytes(),
            ({
                let s = old(self).bytes();
                let p = old(self).pos();
                match r {
                    Ok(a) => p + 1 <= s.len() && parse_items(s, p + 1, length_at(s, p, 1), depth as nat, Seq::empty())
                        == Ok::<(Seq<Tree>, nat), CodecError>((values_view(a@), final(self).pos())),
                    Err(e) => if p + 1 > s.len() {
                        e == CodecError::Truncated
                    } else {
                        parse_items(s, p + 1, length_at(s, p, 1), depth as nat, Seq::empty()) == Err::<
                            (Seq<Tree>, nat),
                            CodecError,
                        >(e)
                    },
                }
            }),
        decreases depth, 2nat,
    {
        let n = self.read_u1()?;
        self.read_items(n as usize, depth)
    }

    /// Decodes an array with a 2-byte count whose elements have at most
    /// `depth` levels below them.
    pub fn read_long_array(&mut self, depth: usize) -> (r: Result<Vec<Value>, CodecError>)
        requires
            old(self).wf(),
        ensures
            final(self).wf(),
            final(self).bytes() == old(self).bytes(),
            ({
                let s = old(self).bytes();
                let p = old(self).pos();
                match r {
                    Ok(a) => p + 2 <= s.len() && parse_items(s, p + 2, length_at(s, p, 2), depth as nat, Seq::empty())
                        == Ok::<(Seq<Tree>, nat), CodecError>((values_view(a@), final(self).pos())),
                    Err(e) => if p + 2 > s.len() {
                        e == CodecError::Truncated
                    } else {
                        parse_items(s, p + 2, length_at(s, p, 2), depth as nat, Seq::empty()) == Err::<
                            (Seq<Tree>, nat),
                            CodecError,
                        >(e)
                    },
                }
            }),
        decreases depth, 2nat,
    {
        let n = self.read_u2()?;
        self.read_items(n as usize, depth)
    }

    /// Decodes a map with a 1-byte count whose keys and values have at most
    /// `depth` levels below them.
    pub fn read_map(&mut self, depth: usize) -> (r: Result<Vec<(Value, Value)>, CodecError>)
        requires
            old(self).wf(),
        ensures
            final(self).wf(),
            final(self).bytes() == old(self).bytes(),
            ({
                let s = old(self).bytes();
                let p = old(self).pos();
                match r {
                    Ok(m) => p + 1 <= s.len() && parse_entries(s, p + 1, length_at(s, p, 1), depth as nat, Seq::empty())
                        == Ok::<(Seq<(Tree, Tree)>, nat), CodecError>((entries_view(m@), final(self).pos())),
                    Err(e) => if p + 1 > s.len() {
                        e == CodecError::Truncated
                    } else {
                        parse_entries(s, p + 1, length_at(s, p, 1), depth as nat, Seq::empty()) == Err::<
                            (Seq<(Tree, Tree)>, nat),
                            CodecError,
                        >(e)
                    },
                }
            }),
        decreases depth, 2nat,
    {
        let n = self.read_u1()?;
        self.read_entries(n as usize, depth)
    }

    /// Decodes a map with a 2-byte count whose keys and values have at most
    /// `depth` levels below them.
    pub fn read_long_map(&mut self, depth: usize) -> (r: Result<Vec<(Value, Value)>, CodecError>)
        requires
            old(self).wf(),
        ensures
            final(self).wf(),
            final(self).bytes() == old(self).bytes(),
            ({
                let s = old(self).bytes();
                let p = old(self).pos();
                match r {
                    Ok(m) => p + 2 <= s.len() && parse_entries(s, p + 2, length_at(s, p, 2), depth as nat, Seq::empty())
                        == Ok::<(Seq<(Tree, Tree)>, nat), CodecError>((entries_view(m@), final(self).pos())),
                    Err(e) => if p + 2 > s.len() {
                        e == CodecError::Truncated
                    } else {
                        parse_entries(s, p + 2, length_at(s, p, 2), depth as nat, Seq::empty()) == Err::<
                            (Seq<(Tree, Tree)>, nat),
                            CodecError,
                        >(e)
                    },
                }
            }),
        decreases depth, 2nat,
    {
        let n = self.read_u2()?;
        self.read_entries(n as usize, depth)
    }

    /// Decodes the body of a compressed block: the marker byte, then a value
    /// holding a zlib stream, whose inflated bytes are decoded as a fresh
    /// value; each with at most `depth` levels below it.
    pub fn read_compressed(&mut self, depth: usize) -> (r: Result<Value, CodecError>)
        requires
            old(self).wf(),
        ensures
            final(self).wf(),
            final(self).bytes() == old(self).bytes(),
            ({
                let s = old(self).bytes();
                let p = old(self).pos();
                match r {
                    Ok(v) => p + 1 <= s.len() && compressed_body(s, p + 1, depth as nat) == Ok::<(Tree, nat), CodecError>(
                        (v@, final(self).pos()),
                    ),
                    Err(e) => if p + 1 > s.len() {
                        e == CodecError::Truncated
                    } else {
                        compressed_body(s, p + 1, depth as nat) == Err::<(Tree, nat), CodecError>(e)
                    },
                }
            }),
        decreases depth, 2nat,
    {
        let _marker = self.read_u1()?;
        proof {
            lemma_compressed_unfold(self.bytes(), self.pos(), depth as nat);
        }
        let inner = match self.read_value_limited(depth) {
            Ok(inner) => inner,
            Err(e) => {
                return Err(e);
            },
        };
        let compressed = match payload_of(inner) {
            Some(c) => c,
            None => {
                return Err(CodecError::DecompressionFailed);
            },
        };
        let inflated = match inflate(&compressed) {
            Some(x) => x,
            None => {
                return Err(CodecError::DecompressionFailed);
            },
        };
        let mut nested = BinaryProtocol::new();
        nested.set_buffer(inflated);
        match nested.read_value_limited(depth) {
            Ok(v) => Ok(v),
            Err(e) => Err(e),
        }
    }

    /// Decodes the value at the read position, with at most
    /// `DEFAULT_MAX_DEPTH` levels of containers below it.
    pub fn read_value(&mut self) -> (r: Result<Value, CodecError>)
        requires
            old(self).wf(),
        ensures
            final(self).wf(),
            final(self).bytes() == old(self).bytes(),
            match r {
                Ok(v) => parse(old(self).bytes(), old(self).pos(), DEFAULT_MAX_DEPTH as nat) == Ok::<
                    (Tree, nat),
                    CodecError,
                >((v@, final(self).pos())) && maps_unique(v@),
                Err(e) => parse(old(self).bytes(), old(self).pos(), DEFAULT_MAX_DEPTH as nat) == Err::<
                    (Tree, nat),
                    CodecError,
                >(e),
            },
    {
        let r = self.read_value_limited(DEFAULT_MAX_DEPTH);
        proof {
            lemma_decoded_maps_unique(old(self).bytes(), old(self).pos(), DEFAULT_MAX_DEPTH as nat);
        }
        r
    }

    /// Decodes the value at the read position; the same as `read_value`.
    pub fn decode_to_json(&mut self) -> (r: Result<Value, CodecError>)
        requires
            old(self).wf(),
        ensures
            final(self).wf(),
            final(self).bytes() == old(self).bytes(),
            match r {
                Ok(v) => parse(old(self).bytes(), old(self).pos(), DEFAULT_MAX_DEPTH as nat) == Ok::<
                    (Tree, nat),
                    CodecError,
                >((v@, final(self).pos())) && maps_unique(v@),
                Err(e) => parse(old(self).bytes(), old(self).pos(), DEFAULT_MAX_DEPTH as nat) == Err::<
                    (Tree, nat),
                    CodecError,
                >(e),
            },
    {
        self.read_value()
    }
}

} // verus!
