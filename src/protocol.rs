//! The codec's state: a byte buffer with a forward-only read position.
//! Reads consume fixed-width big-endian scalars and length-prefixed runs at the
//! position; writes append to the buffer.
use vstd::prelude::*;
use crate::error::CodecError;
use crate::wire::{be2, be4, be8, bytes2, bytes4, bytes8, twos, signed_of, slice, valid_utf8, length_at, utf8_width, is_cont};

verus! {

pub struct BinaryProtocol {
    buffer: Vec<u8>,
    pos: usize,
}

fn is_cont_byte(b: u8) -> (r: bool)
    ensures
        r == is_cont(b),
{
    0x80 <= b && b <= 0xBF
}

/// The length of the well-formed UTF-8 sequence at `i`, or 0.
fn utf8_width_at(t: &[u8], i: usize) -> (r: usize)
    requires
        i < t@.len(),
    ensures
        r == utf8_width(t@.subrange(i as int, t@.len() as int)),
{
    let ghost s = t@.subrange(i as int, t@.len() as int);
    let n = t.len() - i;
    let b0 = t[i];
    assert(s[0] == b0);
    if n >= 2 {
        assert(s[1] == t@[i + 1]);
    }
    if n >= 3 {
        assert(s[2] == t@[i + 2]);
    }
    if n >= 4 {
        assert(s[3] == t@[i + 3]);
    }
    if b0 <= 0x7F {
        1
    } else if 0xC2 <= b0 && b0 <= 0xDF {
        if n >= 2 && is_cont_byte(t[i + 1]) { 2 } else { 0 }
    } else if 0xE0 <= b0 && b0 <= 0xEF {
        if n >= 3 && is_cont_byte(t[i + 1]) && is_cont_byte(t[i + 2]) && (b0 != 0xE0 || t[i + 1] >= 0xA0)
            && (b0 != 0xED || t[i + 1] <= 0x9F) {
            3
        } else {
            0
        }
    } else if 0xF0 <= b0 && b0 <= 0xF4 {
        if n >= 4 && is_cont_byte(t[i + 1]) && is_cont_byte(t[i + 2]) && is_cont_byte(t[i + 3]) && (b0
            != 0xF0 || t[i + 1] >= 0x90) && (b0 != 0xF4 || t[i + 1] <= 0x8F) {
            4
        } else {
            0
        }
    } else {
        0
    }
}

/// Whether `b` is well-formed UTF-8.
pub fn is_utf8(b: &[u8]) -> (r: bool)
    ensures
        r == valid_utf8(b@),
{
    let mut i: usize = 0;
    proof {
        assert(b@.subrange(0, b@.len() as int) =~= b@);
    }
    while i < b.len()
        invariant
            i <= b@.len(),
            valid_utf8(b@) == valid_utf8(b@.subrange(i as int, b@.len() as int)),
        decreases b.len() - i,
    {
        let w = utf8_width_at(b, i);
        let ghost s = b@.subrange(i as int, b@.len() as int);
        if w == 0 {
            return false;
        }
        proof {
            assert(s.subrange(w as int, s.len() as int) =~= b@.subrange(i + w, b@.len() as int));
        }
        i = i + w;
    }
    proof {
        assert(b@.subrange(i as int, b@.len() as int) =~= Seq::<u8>::empty());
    }
    true
}

impl BinaryProtocol {
    /// The bytes in the buffer.
    pub closed spec fn bytes(&self) -> Seq<u8> {
        self.buffer@
    }

    /// The read position.
    pub closed spec fn pos(&self) -> nat {
        self.pos as nat
    }

    /// The read position is within the buffer.
    pub open spec fn wf(&self) -> bool {
        self.pos() <= self.bytes().len()
    }

    /// An empty buffer, read from its start.
    pub fn new() -> (r: Self)
        ensures
            r.bytes() == Seq::<u8>::empty(),
            r.pos() == 0,
            r.wf(),
    {
        BinaryProtocol { buffer: Vec::new(), pos: 0 }
    }

    /// Replaces the buffer by `data` and reads from its start.
    pub fn set_buffer(&mut self, data: Vec<u8>)
        ensures
            final(self).bytes() == data@,
            final(self).pos() == 0,
            final(self).wf(),
    {
        self.buffer = data;
        self.pos = 0;
    }

    /// A copy of the whole buffer.
    pub fn get_buffer(&self) -> (r: Vec<u8>)
        ensures
            r@ == self.bytes(),
    {
        self.buffer.clone()
    }

    /// Empties the buffer and reads from its start.
    pub fn reset(&mut self)
        ensures
            final(self).bytes() == Seq::<u8>::empty(),
            final(self).pos() == 0,
            final(self).wf(),
    {
        self.buffer = Vec::new();
        self.pos = 0;
    }

    /// Takes the next `n` bytes, or fails with `Truncated`, consuming nothing,
    /// where fewer remain.
    fn take(&mut self, n: usize) -> (r: Result<Vec<u8>, CodecError>)
        requires
            old(self).wf(),
        ensures
            final(self).wf(),
            final(self).bytes() == old(self).bytes(),
            match r {
                Ok(v) => old(self).pos() + n <= old(self).bytes().len() && v@ == slice(
                    old(self).bytes(),
                    old(self).pos(),
                    (old(self).pos() + n) as nat,
                ) && final(self).pos() == old(self).pos() + n,
                Err(e) => e == CodecError::Truncated && old(self).pos() + n > old(self).bytes().len()
                    && final(self).pos() == old(self).pos(),
            },
    {
        if n > self.buffer.len() - self.pos {
            return Err(CodecError::Truncated);
        }
        let mut v: Vec<u8> = Vec::new();
        let mut i: usize = 0;
        while i < n
            invariant
                self.pos + n <= self.buffer.len(),
                i <= n,
                v@ == self.buffer@.subrange(self.pos as int, self.pos + i),
            decreases n - i,
        {
            v.push(self.buffer[self.pos + i]);
            i = i + 1;
            proof {
                assert(v@ =~= self.buffer@.subrange(self.pos as int, self.pos + i));
            }
        }
        self.pos = self.pos + n;
        Ok(v)
    }

    /// Reads the one-byte type tag of the next value.
    pub fn read_type(&mut self) -> (r: Result<u8, CodecError>)
        requires
            old(self).wf(),
        ensures
            final(self).wf(),
            final(self).bytes() == old(self).bytes(),
            match r {
                Ok(v) => old(self).pos() < old(self).bytes().len() && v == old(self).bytes()[old(self).pos() as int]
                    && final(self).pos() == old(self).pos() + 1,
                Err(e) => e == CodecError::Truncated && old(self).pos() >= old(self).bytes().len()
                    && final(self).pos() == old(self).pos(),
            },
    {
        self.read_u1()
    }

    pub fn read_u1(&mut self) -> (r: Result<u8, CodecError>)
        requires
            old(self).wf(),
        ensures
            final(self).wf(),
            final(self).bytes() == old(self).bytes(),
            match r {
                Ok(v) => old(self).pos() < old(self).bytes().len() && v == old(self).bytes()[old(self).pos() as int]
                    && final(self).pos() == old(self).pos() + 1,
                Err(e) => e == CodecError::Truncated && old(self).pos() >= old(self).bytes().len()
                    && final(self).pos() == old(self).pos(),
            },
    {
        if self.pos >= self.buffer.len() {
            return Err(CodecError::Truncated);
        }
        let v = self.buffer[self.pos];
        self.pos = self.pos + 1;
        Ok(v)
    }

    pub fn read_u2(&mut self) -> (r: Result<u16, CodecError>)
        requires
            old(self).wf(),
        ensures
            final(self).wf(),
            final(self).bytes() == old(self).bytes(),
            match r {
                Ok(v) => old(self).pos() + 2 <= old(self).bytes().len() && v == be2(
                    slice(old(self).bytes(), old(self).pos(), old(self).pos() + 2),
                ) && final(self).pos() == old(self).pos() + 2,
                Err(e) => e == CodecError::Truncated && old(self).pos() + 2 > old(self).bytes().len()
                    && final(self).pos() == old(self).pos(),
            },
    {
        let b = self.take(2)?;
        Ok((b[0] as u16) * 256 + (b[1] as u16))
    }

    pub fn read_u4(&mut self) -> (r: Result<u32, CodecError>)
        requires
            old(self).wf(),
        ensures
            final(self).wf(),
            final(self).bytes() == old(self).bytes(),
            match r {
                Ok(v) => old(self).pos() + 4 <= old(self).bytes().len() && v == be4(
                    slice(old(self).bytes(), old(self).pos(), old(self).pos() + 4),
                ) && final(self).pos() == old(self).pos() + 4,
                Err(e) => e == CodecError::Truncated && old(self).pos() + 4 > old(self).bytes().len()
                    && final(self).pos() == old(self).pos(),
            },
    {
        let b = self.take(4)?;
        proof {
            assert(b@.subrange(0, 2) =~= seq![b@[0], b@[1]]);
            assert(b@.subrange(2, 4) =~= seq![b@[2], b@[3]]);
        }
        let hi = (b[0] as u32) * 256 + (b[1] as u32);
        let lo = (b[2] as u32) * 256 + (b[3] as u32);
        Ok(hi * 0x1_0000 + lo)
    }

    pub fn read_u8(&mut self) -> (r: Result<u64, CodecError>)
        requires
            old(self).wf(),
        ensures
            final(self).wf(),
            final(self).bytes() == old(self).bytes(),
            match r {
                Ok(v) => old(self).pos() + 8 <= old(self).bytes().len() && v == be8(
                    slice(old(self).bytes(), old(self).pos(), old(self).pos() + 8),
                ) && final(self).pos() == old(self).pos() + 8,
                Err(e) => e == CodecError::Truncated && old(self).pos() + 8 > old(self).bytes().len()
                    && final(self).pos() == old(self).pos(),
            },
    {
        if 8 > self.buffer.len() - self.pos {
            return Err(CodecError::Truncated);
        }
        let ghost s = slice(self.bytes(), self.pos(), self.pos() + 8);
        let hi = self.read_u4()?;
        let lo = self.read_u4()?;
        proof {
            assert(s.subrange(0, 4) =~= slice(self.bytes(), (self.pos() - 8) as nat, (self.pos() - 4) as nat));
            assert(s.subrange(4, 8) =~= slice(self.bytes(), (self.pos() - 4) as nat, self.pos()));
        }
        Ok((hi as u64) * 0x1_0000_0000 + (lo as u64))
    }

    pub fn read_s1(&mut self) -> (r: Result<i8, CodecError>)
        requires
            old(self).wf(),
        ensures
            final(self).wf(),
            final(self).bytes() == old(self).bytes(),
            match r {
                Ok(v) => old(self).pos() < old(self).bytes().len() && v == signed_of(
                    old(self).bytes()[old(self).pos() as int] as nat,
                    0x100,
                ) && final(self).pos() == old(self).pos() + 1,
                Err(e) => e == CodecError::Truncated && old(self).pos() >= old(self).bytes().len()
                    && final(self).pos() == old(self).pos(),
            },
    {
        let u = self.read_u1()?;
        if u < 0x80 {
            Ok(u as i8)
        } else {
            Ok(((u as i16) - 0x100) as i8)
        }
    }

    pub fn read_s2(&mut self) -> (r: Result<i16, CodecError>)
        requires
            old(self).wf(),
        ensures
            final(self).wf(),
            final(self).bytes() == old(self).bytes(),
            match r {
                Ok(v) => old(self).pos() + 2 <= old(self).bytes().len() && v == signed_of(
                    be2(slice(old(self).bytes(), old(self).pos(), old(self).pos() + 2)),
                    0x1_0000,
                ) && final(self).pos() == old(self).pos() + 2,
                Err(e) => e == CodecError::Truncated && old(self).pos() + 2 > old(self).bytes().len()
                    && final(self).pos() == old(self).pos(),
            },
    {
        let u = self.read_u2()?;
        if u < 0x8000 {
            Ok(u as i16)
        } else {
            Ok(((u as i32) - 0x1_0000) as i16)
        }
    }

    pub fn read_s4(&mut self) -> (r: Result<i32, CodecError>)
        requires
            old(self).wf(),
        ensures
            final(self).wf(),
            final(self).bytes() == old(self).bytes(),
            match r {
                Ok(v) => old(self).pos() + 4 <= old(self).bytes().len() && v == signed_of(
                    be4(slice(old(self).bytes(), old(self).pos(), old(self).pos() + 4)),
                    0x1_0000_0000,
                ) && final(self).pos() == old(self).pos() + 4,
                Err(e) => e == CodecError::Truncated && old(self).pos() + 4 > old(self).bytes().len()
                    && final(self).pos() == old(self).pos(),
            },
    {
        let u = self.read_u4()?;
        if u < 0x8000_0000 {
            Ok(u as i32)
        } else {
            Ok(((u as i64) - 0x1_0000_0000) as i32)
        }
    }

    pub fn read_s8(&mut self) -> (r: Result<i64, CodecError>)
        requires
            old(self).wf(),
        ensures
            final(self).wf(),
            final(self).bytes() == old(self).bytes(),
            match r {
                Ok(v) => old(self).pos() + 8 <= old(self).bytes().len() && v == signed_of(
                    be8(slice(old(self).bytes(), old(self).pos(), old(self).pos() + 8)),
                    0x1_0000_0000_0000_0000,
                ) && final(self).pos() == old(self).pos() + 8,
                Err(e) => e == CodecError::Truncated && old(self).pos() + 8 > old(self).bytes().len()
                    && final(self).pos() == old(self).pos(),
            },
    {
        let u = self.read_u8()?;
        if u < 0x8000_0000_0000_0000 {
            Ok(u as i64)
        } else {
            Ok(((u - 0x8000_0000_0000_0000) as i64) - 0x7FFF_FFFF_FFFF_FFFF - 1)
        }
    }

    /// Reads the bit pattern of a single-precision float.
    pub fn read_float(&mut self) -> (r: Result<u32, CodecError>)
        requires
            old(self).wf(),
        ensures
            final(self).wf(),
            final(self).bytes() == old(self).bytes(),
            match r {
                Ok(v) => old(self).pos() + 4 <= old(self).bytes().len() && v == be4(
                    slice(old(self).bytes(), old(self).pos(), old(self).pos() + 4),
                ) && final(self).pos() == old(self).pos() + 4,
                Err(e) => e == CodecError::Truncated && old(self).pos() + 4 > old(self).bytes().len()
                    && final(self).pos() == old(self).pos(),
            },
    {
        self.read_u4()
    }

    /// Reads the bit pattern of a double-precision float.
    pub fn read_double(&mut self) -> (r: Result<u64, CodecError>)
        requires
            old(self).wf(),
        ensures
            final(self).wf(),
            final(self).bytes() == old(self).bytes(),
            match r {
                Ok(v) => old(self).pos() + 8 <= old(self).bytes().len() && v == be8(
                    slice(old(self).bytes(), old(self).pos(), old(self).pos() + 8),
                ) && final(self).pos() == old(self).pos() + 8,
                Err(e) => e == CodecError::Truncated && old(self).pos() + 8 > old(self).bytes().len()
                    && final(self).pos() == old(self).pos(),
            },
    {
        self.read_u8()
    }

    /// Reads a length of `w` bytes, then that many bytes.
    fn read_run(&mut self, w: usize) -> (r: Result<Vec<u8>, CodecError>)
        requires
            old(self).wf(),
            w == 1 || w == 2 || w == 4,
        ensures
            final(self).wf(),
            final(self).bytes() == old(self).bytes(),
            ({
                let s = old(self).bytes();
                let p = old(self).pos();
                match r {
                    Ok(v) => p + w <= s.len() && p + w + length_at(s, p, w as nat) <= s.len() && v@ == slice(
                        s,
                        (p + w) as nat,
                        (p + w + length_at(s, p, w as nat)) as nat,
                    ) && final(self).pos() == p + w + length_at(s, p, w as nat),
                    Err(e) => e == CodecError::Truncated && (p + w > s.len() || p + w + length_at(
                        s,
                        p,
                        w as nat,
                    ) > s.len()),
                }
            }),
    {
        let n: usize = if w == 1 {
            self.read_u1()? as usize
        } else if w == 2 {
            self.read_u2()? as usize
        } else {
            self.read_u4()? as usize
        };
        self.take(n)
    }

    /// Reads a byte run with a 1-byte length.
    pub fn read_binary_data_u1(&mut self) -> (r: Result<Vec<u8>, CodecError>)
        requires
            old(self).wf(),
        ensures
            final(self).wf(),
            final(self).bytes() == old(self).bytes(),
            ({
                let s = old(self).bytes();
                let p = old(self).pos();
                match r {
                    Ok(v) => p + 1 <= s.len() && p + 1 + length_at(s, p, 1) <= s.len() && v@ == slice(
                        s,
                        p + 1,
                        p + 1 + length_at(s, p, 1),
                    ) && final(self).pos() == p + 1 + length_at(s, p, 1),
                    Err(e) => e == CodecError::Truncated && (p + 1 > s.len() || p + 1 + length_at(s, p, 1)
                        > s.len()),
                }
            }),
    {
        self.read_run(1)
    }

    /// Reads a byte run with a 2-byte length.
    pub fn read_binary_data_u2(&mut self) -> (r: Result<Vec<u8>, CodecError>)
        requires
            old(self).wf(),
        ensures
            final(self).wf(),
            final(self).bytes() == old(self).bytes(),
            ({
                let s = old(self).bytes();
                let p = old(self).pos();
                match r {
                    Ok(v) => p + 2 <= s.len() && p + 2 + length_at(s, p, 2) <= s.len() && v@ == slice(
                        s,
                        p + 2,
                        p + 2 + length_at(s, p, 2),
                    ) && final(self).pos() == p + 2 + length_at(s, p, 2),
                    Err(e) => e == CodecError::Truncated && (p + 2 > s.len() || p + 2 + length_at(s, p, 2)
                        > s.len()),
                }
            }),
    {
        self.read_run(2)
    }

    /// Reads a byte run with a 4-byte length.
    pub fn read_binary_data_u4(&mut self) -> (r: Result<Vec<u8>, CodecError>)
        requires
            old(self).wf(),
        ensures
            final(self).wf(),
            final(self).bytes() == old(self).bytes(),
            ({
                let s = old(self).bytes();
                let p = old(self).pos();
                match r {
                    Ok(v) => p + 4 <= s.len() && p + 4 + length_at(s, p, 4) <= s.len() && v@ == slice(
                        s,
                        p + 4,
                        p + 4 + length_at(s, p, 4),
                    ) && final(self).pos() == p + 4 + length_at(s, p, 4),
                    Err(e) => e == CodecError::Truncated && (p + 4 > s.len() || p + 4 + length_at(s, p, 4)
                        > s.len()),
                }
            }),
    {
        self.read_run(4)
    }

    /// Reads a length of `w` bytes and that many bytes of UTF-8 text.
    fn read_text(&mut self, w: usize) -> (r: Result<Vec<u8>, CodecError>)
        requires
            old(self).wf(),
            w == 1 || w == 2,
        ensures
            final(self).wf(),
            final(self).bytes() == old(self).bytes(),
            ({
                let s = old(self).bytes();
                let p = old(self).pos();
                let n = length_at(s, p, w as nat);
                match r {
                    Ok(v) => p + w <= s.len() && p + w + n <= s.len() && v@ == slice(s, (p + w) as nat, (p + w + n) as nat)
                        && valid_utf8(v@) && final(self).pos() == p + w + n,
                    Err(e) => if p + w > s.len() || p + w + n > s.len() {
                        e == CodecError::Truncated
                    } else {
                        e == CodecError::InvalidEncoding && !valid_utf8(slice(s, (p + w) as nat, (p + w + n) as nat))
                    },
                }
            }),
    {
        let v = self.read_run(w)?;
        if is_utf8(v.as_slice()) {
            Ok(v)
        } else {
            Err(CodecError::InvalidEncoding)
        }
    }

    /// Reads UTF-8 text with a 1-byte length, as its bytes.
    pub fn read_string(&mut self) -> (r: Result<Vec<u8>, CodecError>)
        requires
            old(self).wf(),
        ensures
            final(self).wf(),
            final(self).bytes() == old(self).bytes(),
            ({
                let s = old(self).bytes();
                let p = old(self).pos();
                let n = length_at(s, p, 1);
                match r {
                    Ok(v) => p + 1 + n <= s.len() && v@ == slice(s, p + 1, p + 1 + n) && valid_utf8(v@)
                        && final(self).pos() == p + 1 + n,
                    Err(e) => if p + 1 > s.len() || p + 1 + n > s.len() {
                        e == CodecError::Truncated
                    } else {
                        e == CodecError::InvalidEncoding && !valid_utf8(slice(s, p + 1, p + 1 + n))
                    },
                }
            }),
    {
        self.read_text(1)
    }

    /// Reads UTF-8 text with a 2-byte length, as its bytes.
    pub fn read_long_string(&mut self) -> (r: Result<Vec<u8>, CodecError>)
        requires
            old(self).wf(),
        ensures
            final(self).wf(),
            final(self).bytes() == old(self).bytes(),
            ({
                let s = old(self).bytes();
                let p = old(self).pos();
                let n = length_at(s, p, 2);
                match r {
                    Ok(v) => p + 2 + n <= s.len() && v@ == slice(s, p + 2, p + 2 + n) && valid_utf8(v@)
                        && final(self).pos() == p + 2 + n,
                    Err(e) => if p + 2 > s.len() || p + 2 + n > s.len() {
                        e == CodecError::Truncated
                    } else {
                        e == CodecError::InvalidEncoding && !valid_utf8(slice(s, p + 2, p + 2 + n))
                    },
                }
            }),
    {
        self.read_text(2)
    }

    /// Reads a timestamp: Unix seconds in 4 bytes.
    pub fn read_datetime(&mut self) -> (r: Result<u32, CodecError>)
        requires
            old(self).wf(),
        ensures
            final(self).wf(),
            final(self).bytes() == old(self).bytes(),
            match r {
                Ok(v) => old(self).pos() + 4 <= old(self).bytes().len() && v == be4(
                    slice(old(self).bytes(), old(self).pos(), old(self).pos() + 4),
                ) && final(self).pos() == old(self).pos() + 4,
                Err(e) => e == CodecError::Truncated && old(self).pos() + 4 > old(self).bytes().len()
                    && final(self).pos() == old(self).pos(),
            },
    {
        self.read_u4()
    }

    // ---- writing: every write appends to the buffer ----

    pub(crate) fn append(&mut self, b: &[u8])
        requires
            old(self).wf(),
        ensures
            final(self).wf(),
            final(self).bytes() == old(self).bytes() + b@,
            final(self).pos() == old(self).pos(),
    {
        let mut i: usize = 0;
        while i < b.len()
            invariant
                self.wf(),
                i <= b.len(),
                self.bytes() == old(self).bytes() + b@.subrange(0, i as int),
                self.pos() == old(self).pos(),
            decreases b.len() - i,
        {
            self.buffer.push(b[i]);
            i = i + 1;
            proof {
                assert(self.bytes() =~= old(self).bytes() + b@.subrange(0, i as int));
            }
        }
        proof {
            assert(b@.subrange(0, i as int) =~= b@);
        }
    }

    /// Writes a type tag.
    pub fn write_type(&mut self, type_id: u8) -> (r: Result<(), CodecError>)
        requires
            old(self).wf(),
        ensures
            final(self).wf(),
            final(self).bytes() == old(self).bytes().push(type_id),
            final(self).pos() == old(self).pos(),
            r is Ok,
    {
        self.write_u1(type_id)
    }

    pub fn write_u1(&mut self, value: u8) -> (r: Result<(), CodecError>)
        requires
            old(self).wf(),
        ensures
            final(self).wf(),
            final(self).bytes() == old(self).bytes().push(value),
            final(self).pos() == old(self).pos(),
            r is Ok,
    {
        self.buffer.push(value);
        Ok(())
    }

    pub fn write_u2(&mut self, value: u16) -> (r: Result<(), CodecError>)
        requires
            old(self).wf(),
        ensures
            final(self).wf(),
            final(self).bytes() == old(self).bytes() + bytes2(value as nat),
            final(self).pos() == old(self).pos(),
            r is Ok,
    {
        self.buffer.push((value / 256) as u8);
        self.buffer.push((value % 256) as u8);
        proof {
            assert(self.bytes() =~= old(self).bytes() + bytes2(value as nat));
        }
        Ok(())
    }

    pub fn write_u4(&mut self, value: u32) -> (r: Result<(), CodecError>)
        requires
            old(self).wf(),
        ensures
            final(self).wf(),
            final(self).bytes() == old(self).bytes() + bytes4(value as nat),
            final(self).pos() == old(self).pos(),
            r is Ok,
    {
        self.write_u2((value / 0x1_0000) as u16)?;
        self.write_u2((value % 0x1_0000) as u16)?;
        proof {
            assert(self.bytes() =~= old(self).bytes() + bytes4(value as nat));
        }
        Ok(())
    }

    pub fn write_u8(&mut self, value: u64) -> (r: Result<(), CodecError>)
        requires
            old(self).wf(),
        ensures
            final(self).wf(),
            final(self).bytes() == old(self).bytes() + bytes8(value as nat),
            final(self).pos() == old(self).pos(),
            r is Ok,
    {
        self.write_u4((value / 0x1_0000_0000) as u32)?;
        self.write_u4((value % 0x1_0000_0000) as u32)?;
        proof {
            assert(self.bytes() =~= old(self).bytes() + bytes8(value as nat));
        }
        Ok(())
    }

    pub fn write_s1(&mut self, value: i8) -> (r: Result<(), CodecError>)
        requires
            old(self).wf(),
        ensures
            final(self).wf(),
            final(self).bytes() == old(self).bytes().push(twos(value as int, 0x100) as u8),
            final(self).pos() == old(self).pos(),
            r is Ok,
    {
        let u: u8 = if value < 0 { ((value as i16) + 0x100) as u8 } else { value as u8 };
        self.write_u1(u)
    }

    pub fn write_s2(&mut self, value: i16) -> (r: Result<(), CodecError>)
        requires
            old(self).wf(),
        ensures
            final(self).wf(),
            final(self).bytes() == old(self).bytes() + bytes2(twos(value as int, 0x1_0000)),
            final(self).pos() == old(self).pos(),
            r is Ok,
    {
        let u: u16 = if value < 0 { ((value as i32) + 0x1_0000) as u16 } else { value as u16 };
        self.write_u2(u)
    }

    pub fn write_s4(&mut self, value: i32) -> (r: Result<(), CodecError>)
        requires
            old(self).wf(),
        ensures
            final(self).wf(),
            final(self).bytes() == old(self).bytes() + bytes4(twos(value as int, 0x1_0000_0000)),
            final(self).pos() == old(self).pos(),
            r is Ok,
    {
        let u: u32 = if value < 0 { ((value as i64) + 0x1_0000_0000) as u32 } else { value as u32 };
        self.write_u4(u)
    }

    pub fn write_s8(&mut self, value: i64) -> (r: Result<(), CodecError>)
        requires
            old(self).wf(),
        ensures
            final(self).wf(),
            final(self).bytes() == old(self).bytes() + bytes8(twos(value as int, 0x1_0000_0000_0000_0000)),
            final(self).pos() == old(self).pos(),
            r is Ok,
    {
        let u: u64 = if value < 0 {
            let shifted: i64 = value + 0x7FFF_FFFF_FFFF_FFFF + 1;
            (shifted as u64) + 0x8000_0000_0000_0000
        } else {
            value as u64
        };
        self.write_u8(u)
    }

    /// Writes the bit pattern of a single-precision float.
    pub fn write_float(&mut self, bits: u32) -> (r: Result<(), CodecError>)
        requires
            old(self).wf(),
        ensures
            final(self).wf(),
            final(self).bytes() == old(self).bytes() + bytes4(bits as nat),
            final(self).pos() == old(self).pos(),
            r is Ok,
    {
        self.write_u4(bits)
    }

    /// Writes the bit pattern of a double-precision float.
    pub fn write_double(&mut self, bits: u64) -> (r: Result<(), CodecError>)
        requires
            old(self).wf(),
        ensures
            final(self).wf(),
            final(self).bytes() == old(self).bytes() + bytes8(bits as nat),
            final(self).pos() == old(self).pos(),
            r is Ok,
    {
        self.write_u8(bits)
    }

    /// Writes text of at most 255 bytes with a 1-byte length.
    pub fn write_string(&mut self, value: &[u8]) -> (r: Result<(), CodecError>)
        requires
            old(self).wf(),
        ensures
            final(self).wf(),
            final(self).pos() == old(self).pos(),
            match r {
                Ok(_) => value@.len() <= 0xFF && final(self).bytes() == old(self).bytes().push(
                    value@.len() as u8,
                ) + value@,
                Err(e) => e == CodecError::ValueTooLarge && value@.len() > 0xFF && final(self).bytes()
                    == old(self).bytes(),
            },
    {
        if value.len() > 0xFF {
            return Err(CodecError::ValueTooLarge);
        }
        self.write_u1(value.len() as u8)?;
        self.append(value);
        Ok(())
    }

    /// Writes text of at most 65535 bytes with a 2-byte length.
    pub fn write_long_string(&mut self, value: &[u8]) -> (r: Result<(), CodecError>)
        requires
            old(self).wf(),
        ensures
            final(self).wf(),
            final(self).pos() == old(self).pos(),
            match r {
                Ok(_) => value@.len() <= 0xFFFF && final(self).bytes() == old(self).bytes() + bytes2(
                    value@.len(),
                ) + value@,
                Err(e) => e == CodecError::ValueTooLarge && value@.len() > 0xFFFF && final(self).bytes()
                    == old(self).bytes(),
            },
    {
        if value.len() > 0xFFFF {
            return Err(CodecError::ValueTooLarge);
        }
        self.write_u2(value.len() as u16)?;
        self.append(value);
        Ok(())
    }
}

impl Default for BinaryProtocol {
    /// An empty buffer, read from its start.
    fn default() -> (r: Self)
        ensures
            r.bytes() == Seq::<u8>::empty(),
            r.pos() == 0,
            r.wf(),
    {
        Self::new()
    }
}

} // verus!
