//! Text that the decoder produces: decimal numbers, map keys, the words for
//! non-finite floats, and the widening of singles to doubles.
use vstd::prelude::*;
use vstd::arithmetic::power2::{pow2, lemma2_to64, lemma_pow2_unfold};
use crate::value::{Value, Number};
use crate::wire::{digits, decimal, key_of, odd_part, pow2_53, nonfinite_text, normalized, norm_shift, widen_single};

verus! {

/// Appends the decimal digits of `n`.
fn push_digits(n: u64, out: &mut Vec<u8>)
    ensures
        final(out)@ == old(out)@ + digits(n as nat),
    decreases n,
{
    if n >= 10 {
        push_digits(n / 10, out);
    }
    out.push((48 + n % 10) as u8);
    proof {
        if n >= 10 {
            assert(final(out)@ =~= old(out)@ + digits(n as nat));
        } else {
            assert(final(out)@ =~= old(out)@ + digits(n as nat));
        }
    }
}

/// The decimal text of an unsigned integer.
pub fn decimal_u64(n: u64) -> (r: Vec<u8>)
    ensures
        r@ == decimal(n as int),
{
    let mut out: Vec<u8> = Vec::new();
    push_digits(n, &mut out);
    proof {
        assert(out@ =~= decimal(n as int));
    }
    out
}

/// The decimal text of a signed integer.
pub fn decimal_i64(v: i64) -> (r: Vec<u8>)
    ensures
        r@ == decimal(v as int),
{
    if v >= 0 {
        decimal_u64(v as u64)
    } else {
        let mut out: Vec<u8> = Vec::new();
        out.push(45u8);
        let magnitude: u64 = ((-(v + 1)) as u64) + 1;
        push_digits(magnitude, &mut out);
        proof {
            assert(out@ =~= decimal(v as int));
        }
        out
    }
}

/// A double holds the integer whose magnitude is `n` exactly.
pub fn magnitude_is_double_exact(n: u64) -> (r: bool)
    ensures
        r == (odd_part(n as nat) <= pow2_53()),
{
    let mut m: u64 = n;
    while m != 0 && m % 2 == 0
        invariant
            odd_part(m as nat) == odd_part(n as nat),
        decreases m,
    {
        m = m / 2;
    }
    m <= 0x20_0000_0000_0000
}

/// The magnitude of a signed integer.
pub fn magnitude(v: i64) -> (r: u64)
    ensures
        r as int == (if v < 0 { -v } else { v as int }),
{
    if v >= 0 {
        v as u64
    } else {
        ((-(v + 1)) as u64) + 1
    }
}

/// The text for a NaN or an infinity.
pub fn nonfinite_word(negative: bool, nan: bool) -> (r: Vec<u8>)
    ensures
        r@ == nonfinite_text(negative, nan),
{
    let r = if nan {
        vec![78u8, 97u8, 78u8]
    } else if negative {
        vec![45u8, 105u8, 110u8, 102u8]
    } else {
        vec![105u8, 110u8, 102u8]
    };
    proof {
        assert(r@ =~= nonfinite_text(negative, nan));
    }
    r
}

/// The key a decoded value becomes: text as is, an integer as its decimal
/// text, null and booleans as their JSON words; a float, an array or a map as
/// it is.
pub fn key_of_value(k: Value) -> (r: Value)
    ensures
        r@ == key_of(k@),
{
    match k {
        Value::Number(Number::Int(i)) => Value::Text(decimal_i64(i)),
        Value::Number(Number::UInt(u)) => Value::Text(decimal_u64(u)),
        Value::Null => Value::Text(vec![110u8, 117u8, 108u8, 108u8]),
        Value::Bool(true) => Value::Text(vec![116u8, 114u8, 117u8, 101u8]),
        Value::Bool(false) => Value::Text(vec![102u8, 97u8, 108u8, 115u8, 101u8]),
        other => other,
    }
}

proof fn lemma_norm_step(m: nat)
    requires
        0 < m < 0x80_0000,
    ensures
        normalized(m) == normalized(2 * m),
        norm_shift(m) == 1 + norm_shift(2 * m),
{
}

/// The bit pattern of the double equal to the finite single with pattern `b`.
pub fn widen_single_bits(b: u32) -> (r: u64)
    requires
        (b / 0x80_0000) % 0x100 != 0xFF,
    ensures
        r == widen_single(b as nat),
{
    let sign: u64 = ((b / 0x8000_0000) as u64) * 0x8000_0000_0000_0000;
    let e: u32 = (b / 0x80_0000) % 0x100;
    let m: u32 = b % 0x80_0000;
    if e == 0 && m == 0 {
        sign
    } else if e == 0 {
        let mut mm: u32 = m;
        let mut k: u32 = 0;
        let mut i: u32 = 0;
        proof {
            lemma2_to64();
        }
        while i < 23
            invariant
                0 < mm < 0x100_0000,
                k <= i <= 23,
                normalized(mm as nat) == normalized(m as nat),
                norm_shift(mm as nat) + k == norm_shift(m as nat),
                mm < 0x80_0000 ==> k == i && mm >= pow2(i as nat),
                pow2(23) == 0x80_0000,
            decreases 23 - i,
        {
            if mm < 0x80_0000 {
                proof {
                    lemma_norm_step(mm as nat);
                    lemma_pow2_unfold((i + 1) as nat);
                }
                mm = mm * 2;
                k = k + 1;
            }
            i = i + 1;
        }
        assert(mm >= 0x80_0000);
        let exp: u64 = (897 - k) as u64;
        let frac: u64 = (mm - 0x80_0000) as u64;
        sign + exp * 0x10_0000_0000_0000 + frac * 0x2000_0000
    } else {
        sign + ((e + 896) as u64) * 0x10_0000_0000_0000 + (m as u64) * 0x2000_0000
    }
}

} // verus!
