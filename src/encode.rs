//! Encoding: the narrowest tag for each node, then its payload.
use vstd::prelude::*;
use crate::tags;
use crate::error::CodecError;
use crate::value::{Value, Number, Tree};
use crate::protocol::BinaryProtocol;
use crate::wire::{
    encodable, encoding, int_encoding, text_encoding, items_encoding, entries_encoding, count_header,
    blob_encoding, compressed_encoding, bytes2, };
use crate::decode::{values_view, entries_view, lemma_array_view, lemma_object_view};
use crate::compress::{deflate, zlib_inflated, zlib_deflated};

verus! {

/// The elements of an array are all encodable.
pub open spec fn all_encodable(t: Seq<Tree>) -> bool {
    forall|i: int| 0 <= i < t.len() ==> encodable(#[trigger] t[i])
}

/// The keys and values of a map are all encodable.
pub open spec fn all_entries_encodable(m: Seq<(Tree, Tree)>) -> bool {
    forall|i: int| 0 <= i < m.len() ==> encodable((#[trigger] m[i]).0) && encodable(m[i].1)
}

proof fn lemma_items_snoc(t: Seq<Tree>)
    requires
        t.len() > 0,
    ensures
        items_encoding(t) == items_encoding(t.drop_last()) + encoding(t.last()),
    decreases t.len(),
{
    if t.len() == 1 {
        assert(t.subrange(1, 1) =~= Seq::<Tree>::empty());
        assert(t.drop_last() =~= Seq::<Tree>::empty());
        assert(items_encoding(t) =~= items_encoding(t.drop_last()) + encoding(t.last()));
    } else {
        let tail = t.subrange(1, t.len() as int);
        lemma_items_snoc(tail);
        assert(tail.drop_last() =~= t.drop_last().subrange(1, t.drop_last().len() as int));
        assert(tail.last() == t.last());
        assert(items_encoding(t) =~= items_encoding(t.drop_last()) + encoding(t.last()));
    }
}

proof fn lemma_entries_snoc(m: Seq<(Tree, Tree)>)
    requires
        m.len() > 0,
    ensures
        entries_encoding(m) == entries_encoding(m.drop_last()) + encoding(m.last().0) + encoding(m.last().1),
    decreases m.len(),
{
    if m.len() == 1 {
        assert(m.subrange(1, 1) =~= Seq::<(Tree, Tree)>::empty());
        assert(m.drop_last() =~= Seq::<(Tree, Tree)>::empty());
        assert(entries_encoding(m) =~= entries_encoding(m.drop_last()) + encoding(m.last().0) + encoding(
            m.last().1,
        ));
    } else {
        let tail = m.subrange(1, m.len() as int);
        lemma_entries_snoc(tail);
        assert(tail.drop_last() =~= m.drop_last().subrange(1, m.drop_last().len() as int));
        assert(tail.last() == m.last());
        assert(entries_encoding(m) =~= entries_encoding(m.drop_last()) + encoding(m.last().0) + encoding(
            m.last().1,
        ));
    }
}

impl BinaryProtocol {
    /// Writes an integer with the narrowest signed tag that holds it.
    fn write_int(&mut self, i: i64)
        requires
            old(self).wf(),
        ensures
            final(self).wf(),
            final(self).pos() == old(self).pos(),
            final(self).bytes() == old(self).bytes() + int_encoding(i as int),
    {
        if -0x80 <= i && i < 0x80 {
            let _ = self.write_type(tags::TYPE_S1);
            let _ = self.write_s1(i as i8);
            proof {
                assert(self.bytes() =~= old(self).bytes() + int_encoding(i as int));
            }
        } else if -0x8000 <= i && i < 0x8000 {
            let _ = self.write_type(tags::TYPE_S2);
            let _ = self.write_s2(i as i16);
            proof {
                assert(self.bytes() =~= old(self).bytes() + int_encoding(i as int));
            }
        } else if -0x8000_0000 <= i && i < 0x8000_0000 {
            let _ = self.write_type(tags::TYPE_S4);
            let _ = self.write_s4(i as i32);
            proof {
                assert(self.bytes() =~= old(self).bytes() + int_encoding(i as int));
            }
        } else {
            let _ = self.write_type(tags::TYPE_S8);
            let _ = self.write_s8(i);
            proof {
                assert(self.bytes() =~= old(self).bytes() + int_encoding(i as int));
            }
        }
    }

    /// Writes text with the short tag up to 255 bytes, else the long tag; text
    /// over 65535 bytes is refused.
    fn write_text(&mut self, t: &[u8]) -> (r: Result<(), CodecError>)
        requires
            old(self).wf(),
        ensures
            final(self).wf(),
            final(self).pos() == old(self).pos(),
            match r {
                Ok(_) => t@.len() <= 0xFFFF && final(self).bytes() == old(self).bytes() + text_encoding(t@),
                Err(e) => e == CodecError::ValueTooLarge && t@.len() > 0xFFFF,
            },
    {
        if t.len() <= 0xFF {
            let _ = self.write_type(tags::TYPE_STRING);
            let _ = self.write_string(t);
            proof {
                assert(self.bytes() =~= old(self).bytes() + text_encoding(t@));
            }
            Ok(())
        } else if t.len() <= 0xFFFF {
            let _ = self.write_type(tags::TYPE_LONG_STRING);
            let _ = self.write_long_string(t);
            proof {
                assert(self.bytes() =~= old(self).bytes() + text_encoding(t@));
            }
            Ok(())
        } else {
            Err(CodecError::ValueTooLarge)
        }
    }

    /// Writes each value of `values` in turn.
    fn write_items(&mut self, values: &[Value]) -> (r: Result<(), CodecError>)
        requires
            old(self).wf(),
        ensures
            final(self).wf(),
            final(self).pos() == old(self).pos(),
            match r {
                Ok(_) => all_encodable(values_view(values@)) && final(self).bytes() == old(self).bytes()
                    + items_encoding(values_view(values@)),
                Err(e) => e == CodecError::ValueTooLarge && !all_encodable(values_view(values@)),
            },
        decreases values@, 0nat,
    {
        let ghost t = values_view(values@);
        let mut i: usize = 0;
        let mut failure: Option<CodecError> = None;
        proof {
            assert(t.subrange(0, 0) =~= Seq::<Tree>::empty());
            assert(self.bytes() =~= old(self).bytes() + items_encoding(t.subrange(0, 0)));
        }
        while i < values.len()
            invariant_except_break
                failure is None,
                self.bytes() == old(self).bytes() + items_encoding(t.subrange(0, i as int)),
                forall|j: int| 0 <= j < i ==> encodable(#[trigger] t[j]),
            invariant
                self.wf(),
                self.pos() == old(self).pos(),
                t == values_view(values@),
                i <= values.len(),
            ensures
                match failure {
                    None => i == values.len() && self.bytes() == old(self).bytes() + items_encoding(
                        t.subrange(0, i as int),
                    ) && forall|j: int| 0 <= j < i ==> encodable(#[trigger] t[j]),
                    Some(e) => e == CodecError::ValueTooLarge && !all_encodable(t),
                },
            decreases values.len() - i,
        {
            proof {
                assert(decreases_to!(values@ => values@[i as int]));
                assert(t[i as int] == values@[i as int]@);
            }
            match self.write_value(&values[i]) {
                Ok(_) => {
                    proof {
                        lemma_items_snoc(t.subrange(0, i + 1));
                        assert(t.subrange(0, i + 1).drop_last() =~= t.subrange(0, i as int));
                    }
                    i = i + 1;
                },
                Err(e) => {
                    proof {
                        assert(!encodable(t[i as int]));
                    }
                    failure = Some(e);
                    break;
                },
            }
        }
        if let Some(e) = failure {
            return Err(e);
        }
        proof {
            assert(t.subrange(0, i as int) =~= t);
        }
        Ok(())
    }

    /// Writes each entry of `map` in turn: its key, then its value.
    fn write_entries(&mut self, map: &[(Value, Value)]) -> (r: Result<(), CodecError>)
        requires
            old(self).wf(),
        ensures
            final(self).wf(),
            final(self).pos() == old(self).pos(),
            match r {
                Ok(_) => all_entries_encodable(entries_view(map@)) && final(self).bytes() == old(self).bytes()
                    + entries_encoding(entries_view(map@)),
                Err(e) => e == CodecError::ValueTooLarge && !all_entries_encodable(entries_view(map@)),
            },
        decreases map@, 0nat,
    {
        let ghost m = entries_view(map@);
        let mut i: usize = 0;
        let mut failure: Option<CodecError> = None;
        proof {
            assert(m.subrange(0, 0) =~= Seq::<(Tree, Tree)>::empty());
            assert(self.bytes() =~= old(self).bytes() + entries_encoding(m.subrange(0, 0)));
        }
        while i < map.len()
            invariant_except_break
                failure is None,
                self.bytes() == old(self).bytes() + entries_encoding(m.subrange(0, i as int)),
                forall|j: int| 0 <= j < i ==> encodable((#[trigger] m[j]).0) && encodable(m[j].1),
            invariant
                self.wf(),
                self.pos() == old(self).pos(),
                m == entries_view(map@),
                i <= map.len(),
            ensures
                match failure {
                    None => i == map.len() && self.bytes() == old(self).bytes() + entries_encoding(
                        m.subrange(0, i as int),
                    ) && forall|j: int| 0 <= j < i ==> encodable((#[trigger] m[j]).0) && encodable(m[j].1),
                    Some(e) => e == CodecError::ValueTooLarge && !all_entries_encodable(m),
                },
            decreases map.len() - i,
        {
            proof {
                assert(decreases_to!(map@ => map@[i as int]));
                assert(decreases_to!(map@[i as int] => map@[i as int].1));
                assert(decreases_to!(map@[i as int] => map@[i as int].0));
            }
            let entry = &map[i];
            proof {
                assert(m[i as int] == (entry.0@, entry.1@));
            }
            match self.write_value(&entry.0) {
                Ok(_) => {},
                Err(e) => {
                    proof {
                        assert(!(encodable((m[i as int]).0) && encodable(m[i as int].1)));
                    }
                    failure = Some(e);
                    break;
                },
            }
            match self.write_value(&entry.1) {
                Ok(_) => {
                    proof {
                        lemma_entries_snoc(m.subrange(0, i + 1));
                        assert(m.subrange(0, i + 1).drop_last() =~= m.subrange(0, i as int));
                    }
                    i = i + 1;
                },
                Err(e) => {
                    failure = Some(e);
                    break;
                },
            }
        }
        if let Some(e) = failure {
            return Err(e);
        }
        proof {
            assert(m.subrange(0, i as int) =~= m);
        }
        Ok(())
    }

    /// Writes the canonical encoding of a value; a text, array or map longer
    /// than 65535 anywhere in it is refused with `ValueTooLarge`.
    pub fn write_value(&mut self, value: &Value) -> (r: Result<(), CodecError>)
        requires
            old(self).wf(),
        ensures
            final(self).wf(),
            final(self).pos() == old(self).pos(),
            match r {
                Ok(_) => encodable(value@) && final(self).bytes() == old(self).bytes() + encoding(value@),
                Err(e) => e == CodecError::ValueTooLarge && !encodable(value@),
            },
        decreases value, 1nat,
    {
        match value {
            Value::Null => {
                let _ = self.write_type(tags::TYPE_NULL);
                Ok(())
            },
            Value::Bool(b) => {
                if *b {
                    let _ = self.write_type(tags::TYPE_BOOLEAN_TRUE);
                } else {
                    let _ = self.write_type(tags::TYPE_BOOLEAN_FALSE);
                }
                Ok(())
            },
            Value::Number(Number::Int(i)) => {
                self.write_int(*i);
                Ok(())
            },
            Value::Number(Number::UInt(u)) => {
                if *u <= 0x7FFF_FFFF_FFFF_FFFF {
                    self.write_int(*u as i64);
                } else {
                    let _ = self.write_type(tags::TYPE_U8);
                    let _ = self.write_u8(*u);
                    proof {
                        assert(self.bytes() =~= old(self).bytes() + encoding(value@));
                    }
                }
                Ok(())
            },
            Value::Number(Number::Float(b)) => {
                let _ = self.write_type(tags::TYPE_DOUBLE);
                let _ = self.write_double(*b);
                proof {
                    assert(self.bytes() =~= old(self).bytes() + encoding(value@));
                }
                Ok(())
            },
            Value::Text(t) => self.write_text(t.as_slice()),
            Value::Array(a) => {
                proof {
                    lemma_array_view(*a);
                }
                let n = a.len();
                if n > 0xFFFF {
                    return Err(CodecError::ValueTooLarge);
                }
                if n <= 0xFF {
                    let _ = self.write_type(tags::TYPE_ARRAY);
                    let _ = self.write_u1(n as u8);
                } else {
                    let _ = self.write_type(tags::TYPE_LONG_ARRAY);
                    let _ = self.write_u2(n as u16);
                }
                let ghost mid = self.bytes();
                proof {
                    assert(mid =~= old(self).bytes() + count_header(tags::TYPE_ARRAY, tags::TYPE_LONG_ARRAY, n as nat));
                    assert(decreases_to!(value => a@));
                }
                let r = self.write_items(a.as_slice());
                proof {
                    if r is Ok {
                        assert(self.bytes() =~= old(self).bytes() + encoding(value@));
                    }
                }
                r
            },
            Value::Object(m) => {
                proof {
                    lemma_object_view(*m);
                }
                let n = m.len();
                if n > 0xFFFF {
                    return Err(CodecError::ValueTooLarge);
                }
                if n <= 0xFF {
                    let _ = self.write_type(tags::TYPE_MAP);
                    let _ = self.write_u1(n as u8);
                } else {
                    let _ = self.write_type(tags::TYPE_LONG_MAP);
                    let _ = self.write_u2(n as u16);
                }
                let ghost mid = self.bytes();
                proof {
                    assert(mid =~= old(self).bytes() + count_header(tags::TYPE_MAP, tags::TYPE_LONG_MAP, n as nat));
                    assert(decreases_to!(value => m@));
                }
                let r = self.write_entries(m.as_slice());
                proof {
                    if r is Ok {
                        assert(self.bytes() =~= old(self).bytes() + encoding(value@));
                    }
                }
                r
            },
        }
    }

    /// Writes an array body of at most 255 elements: a 1-byte count, then each element.
    pub fn write_array(&mut self, values: &[Value]) -> (r: Result<(), CodecError>)
        requires
            old(self).wf(),
        ensures
            final(self).wf(),
            final(self).pos() == old(self).pos(),
            match r {
                Ok(_) => values@.len() <= 0xFF && all_encodable(values_view(values@)) && final(self).bytes()
                    == old(self).bytes().push(values@.len() as u8) + items_encoding(values_view(values@)),
                Err(e) => e == CodecError::ValueTooLarge && !(values@.len() <= 0xFF && all_encodable(
                    values_view(values@),
                )),
            },
    {
        if values.len() > 0xFF {
            return Err(CodecError::ValueTooLarge);
        }
        let _ = self.write_u1(values.len() as u8);
        self.write_items(values)
    }

    /// Writes an array body of at most 65535 elements: a 2-byte count, then each element.
    pub fn write_long_array(&mut self, values: &[Value]) -> (r: Result<(), CodecError>)
        requires
            old(self).wf(),
        ensures
            final(self).wf(),
            final(self).pos() == old(self).pos(),
            match r {
                Ok(_) => values@.len() <= 0xFFFF && all_encodable(values_view(values@)) && final(self).bytes()
                    == old(self).bytes() + bytes2(values@.len()) + items_encoding(values_view(values@)),
                Err(e) => e == CodecError::ValueTooLarge && !(values@.len() <= 0xFFFF && all_encodable(
                    values_view(values@),
                )),
            },
    {
        if values.len() > 0xFFFF {
            return Err(CodecError::ValueTooLarge);
        }
        let _ = self.write_u2(values.len() as u16);
        self.write_items(values)
    }

    /// Writes a map body of at most 255 entries: a 1-byte count, then each key
    /// and each value.
    pub fn write_map(&mut self, map: &[(Value, Value)]) -> (r: Result<(), CodecError>)
        requires
            old(self).wf(),
        ensures
            final(self).wf(),
            final(self).pos() == old(self).pos(),
            match r {
                Ok(_) => map@.len() <= 0xFF && all_entries_encodable(entries_view(map@)) && final(self).bytes()
                    == old(self).bytes().push(map@.len() as u8) + entries_encoding(entries_view(map@)),
                Err(e) => e == CodecError::ValueTooLarge && !(map@.len() <= 0xFF && all_entries_encodable(
                    entries_view(map@),
                )),
            },
    {
        if map.len() > 0xFF {
            return Err(CodecError::ValueTooLarge);
        }
        let _ = self.write_u1(map.len() as u8);
        self.write_entries(map)
    }

    /// Writes a map body of at most 65535 entries: a 2-byte count, then each
    /// key and each value.
    pub fn write_long_map(&mut self, map: &[(Value, Value)]) -> (r: Result<(), CodecError>)
        requires
            old(self).wf(),
        ensures
            final(self).wf(),
            final(self).pos() == old(self).pos(),
            match r {
                Ok(_) => map@.len() <= 0xFFFF && all_entries_encodable(entries_view(map@)) && final(self).bytes()
                    == old(self).bytes() + bytes2(map@.len()) + entries_encoding(entries_view(map@)),
                Err(e) => e == CodecError::ValueTooLarge && !(map@.len() <= 0xFFFF && all_entries_encodable(
                    entries_view(map@),
                )),
            },
    {
        if map.len() > 0xFFFF {
            return Err(CodecError::ValueTooLarge);
        }
        let _ = self.write_u2(map.len() as u16);
        self.write_entries(map)
    }

    /// Writes a byte run with the smallest length tier that holds it.
    fn write_blob(&mut self, c: &[u8])
        requires
            old(self).wf(),
            c@.len() <= 0xFFFF_FFFF,
        ensures
            final(self).wf(),
            final(self).pos() == old(self).pos(),
            final(self).bytes() == old(self).bytes() + blob_encoding(c@),
    {
        if c.len() <= 0xFF {
            let _ = self.write_type(tags::TYPE_BINARY_DATA_U1);
            let _ = self.write_u1(c.len() as u8);
        } else if c.len() <= 0xFFFF {
            let _ = self.write_type(tags::TYPE_BINARY_DATA_U2);
            let _ = self.write_u2(c.len() as u16);
        } else {
            let _ = self.write_type(tags::TYPE_BINARY_DATA_U4);
            let _ = self.write_u4(c.len() as u32);
        }
        self.append(c);
        proof {
            assert(self.bytes() =~= old(self).bytes() + blob_encoding(c@));
        }
    }

    /// Writes `value` as a compressed block: its encoding on its own, deflated,
    /// after the compressed tag and the marker byte, framed as a byte run.
    pub fn write_compressed(&mut self, value: &Value) -> (r: Result<(), CodecError>)
        requires
            old(self).wf(),
        ensures
            final(self).wf(),
            final(self).pos() == old(self).pos(),
            match r {
                Ok(_) => encodable(value@) && zlib_deflated(encoding(value@)).len() <= 0xFFFF_FFFF
                    && zlib_inflated(zlib_deflated(encoding(value@))) == Some(encoding(value@))
                    && final(self).bytes() == old(self).bytes() + compressed_encoding(zlib_deflated(encoding(value@))),
                Err(e) => e == CodecError::ValueTooLarge && (!encodable(value@) || zlib_deflated(
                    encoding(value@),
                ).len() > 0xFFFF_FFFF) && final(self).bytes() == old(self).bytes(),
            },
    {
        let mut inner = BinaryProtocol::new();
        inner.write_value(value)?;
        proof {
            assert(inner.bytes() =~= encoding(value@));
        }
        let encoded = inner.get_buffer();
        let compressed = deflate(&encoded);
        if compressed.len() > 0xFFFF_FFFF {
            return Err(CodecError::ValueTooLarge);
        }
        let _ = self.write_type(tags::TYPE_COMPRESSED);
        let _ = self.write_u1(tags::COMPRESSED_MARKER);
        self.write_blob(compressed.as_slice());
        proof {
            assert(self.bytes() =~= old(self).bytes() + compressed_encoding(compressed@));
        }
        Ok(())
    }

    /// Empties the buffer, writes `data` and returns the bytes written.
    pub fn encode_json(&mut self, data: &Value) -> (r: Result<Vec<u8>, CodecError>)
        requires
            old(self).wf(),
        ensures
            final(self).wf(),
            match r {
                Ok(b) => encodable(data@) && b@ == encoding(data@) && final(self).bytes() == b@,
                Err(e) => e == CodecError::ValueTooLarge && !encodable(data@),
            },
    {
        self.reset();
        self.write_value(data)?;
        proof {
            assert(self.bytes() =~= encoding(data@));
        }
        Ok(self.get_buffer())
    }
}

} // verus!
