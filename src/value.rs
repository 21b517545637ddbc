//! The value tree that the codec decodes into and encodes from, and its
//! mathematical model.
use vstd::prelude::*;
use crate::wire::{valid_utf8, in_int_range, same_key};

verus! {

/// A number as the host's JSON-like value type holds it.
#[derive(Debug, Clone, Copy, PartialEq, Eq, Structural)]
pub enum Number {
    /// A signed integer.
    Int(i64),
    /// An unsigned integer.
    UInt(u64),
    /// The bit pattern of a finite IEEE-754 double.
    Float(u64),
}

/// A decoded value: null, a boolean, a number, UTF-8 text, an array, or a map
/// from text keys to values.
#[derive(Debug, PartialEq, Eq)]
pub enum Value {
    Null,
    Bool(bool),
    Number(Number),
    /// The UTF-8 bytes of a text.
    Text(Vec<u8>),
    Array(Vec<Value>),
    /// Entries in insertion order. A key is text, or, where the decoder
    /// found a float, an array or a map in a key's place, that value itself.
    Object(Vec<(Value, Value)>),
}

/// The mathematical model of a [`Value`]: integers are unbounded and
/// sequences stand for vectors.
pub enum Tree {
    Null,
    Bool(bool),
    Int(int),
    Float(u64),
    Text(Seq<u8>),
    Array(Seq<Tree>),
    Object(Seq<(Tree, Tree)>),
}

impl Number {
    pub open spec fn view(&self) -> Tree {
        match *self {
            Number::Int(i) => Tree::Int(i as int),
            Number::UInt(u) => Tree::Int(u as int),
            Number::Float(b) => Tree::Float(b),
        }
    }
}

impl Value {
    pub open spec fn view(&self) -> Tree
        decreases self,
    {
        match self {
            Value::Null => Tree::Null,
            Value::Bool(b) => Tree::Bool(*b),
            Value::Number(n) => n@,
            Value::Text(t) => Tree::Text(t@),
            Value::Array(a) => Tree::Array(
                Seq::new(a.len() as nat, |i: int| if 0 <= i < a.len() { a@[i]@ } else { Tree::Null }),
            ),
            Value::Object(m) => Tree::Object(
                Seq::new(
                    m.len() as nat,
                    |i: int| if 0 <= i < m.len() { (m@[i].0@, m@[i].1@) } else { (Tree::Null, Tree::Null) },
                ),
            ),
        }
    }
}

/// The bit pattern of a finite double: its exponent field is not all ones.
pub open spec fn finite_bits(b: u64) -> bool {
    (b as nat / 0x10_0000_0000_0000) % 2048 != 2047
}

/// The keys of a map model are pairwise distinct, as the decoder tells keys apart.
pub open spec fn keys_unique(m: Seq<(Tree, Tree)>) -> bool {
    forall|i: int, j: int| 0 <= i < j < m.len() ==> !same_key(m[i].0, m[j].0)
}

/// What may stand as a map key: text, a float, an array or a map.
pub open spec fn key_form(t: Tree) -> bool {
    t is Text || t is Float || t is Array || t is Object
}

impl Tree {
    /// A well-formed tree: integers within the 64-bit ranges, finite floats,
    /// UTF-8 texts, keys of a key form and distinct.
    pub open spec fn wf(self) -> bool
        decreases self,
    {
        match self {
            Tree::Float(b) => finite_bits(b),
            Tree::Int(i) => in_int_range(i),
            Tree::Text(t) => valid_utf8(t),
            Tree::Array(a) => forall|i: int| 0 <= i < a.len() ==> (#[trigger] a[i]).wf(),
            Tree::Object(m) => keys_unique(m) && forall|i: int|
                0 <= i < m.len() ==> key_form((#[trigger] m[i]).0) && m[i].0.wf() && m[i].1.wf(),
            _ => true,
        }
    }
}

} // verus!
