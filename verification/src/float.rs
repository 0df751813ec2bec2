//! IEEE 754 numbers by their bits: which of them JSON can hold, and half
//! precision widened to single.
use crate::literal::{null_text, write_null};
use crate::out::Out;
use vstd::arithmetic::power2::{lemma_pow2_adds, lemma_pow2_unfold, pow2};
use vstd::prelude::*;

verus! {

/// Do these bits of a double stand for a number: neither an infinity nor a NaN?
pub open spec fn finite64(bits: u64) -> bool {
    bits as int / 0x10_0000_0000_0000 % 0x800 != 0x7ff
}

/// Do these bits of a single stand for a number: neither an infinity nor a NaN?
pub open spec fn finite32(bits: u32) -> bool {
    bits as int / 0x80_0000 % 0x100 != 0xff
}

pub fn is_finite64(bits: u64) -> (r: bool)
    ensures
        r == finite64(bits),
{
    bits / 0x10_0000_0000_0000 % 0x800 != 0x7ff
}

pub fn is_finite32(bits: u32) -> (r: bool)
    ensures
        r == finite32(bits),
{
    bits / 0x80_0000 % 0x100 != 0xff
}

/// The text of a double with the given bits, where `digits` is its decimal text if
/// it is finite. What is not finite is `null`.
pub open spec fn f64_text(bits: u64, digits: Seq<u8>) -> Seq<u8> {
    if finite64(bits) {
        digits
    } else {
        null_text()
    }
}

/// The text of a single with the given bits, where `digits` is its decimal text if
/// it is finite. What is not finite is `null`.
pub open spec fn f32_text(bits: u32, digits: Seq<u8>) -> Seq<u8> {
    if finite32(bits) {
        digits
    } else {
        null_text()
    }
}

/// Writes a double: the decimal text that it was given, or `null`.
pub fn write_f64(out: &mut Out, bits: u64, digits: &[u8])
    ensures
        final(out)@ == old(out)@ + f64_text(bits, digits@),
{
    if !is_finite64(bits) {
        write_null(out);
        return;
    }
    out.extend_from_slice(digits);
}

/// Writes a single, or a half widened to one: the decimal text that it was given,
/// or `null`.
pub fn write_f32(out: &mut Out, bits: u32, digits: &[u8])
    ensures
        final(out)@ == old(out)@ + f32_text(bits, digits@),
{
    if !is_finite32(bits) {
        write_null(out);
        return;
    }
    out.extend_from_slice(digits);
}

/// Sign, exponent field and fraction field of a half.
pub open spec fn half_fields(i: u16) -> (int, int, int) {
    (i as int / 0x8000, i as int / 0x400 % 0x20, i as int % 0x400)
}

/// Sign, exponent field and fraction field of a single.
pub open spec fn single_fields(bits: u32) -> (int, int, int) {
    (bits as int / 0x8000_0000, bits as int / 0x80_0000 % 0x100, bits as int % 0x80_0000)
}

/// A finite half is `significand * 2^exponent`, with its sign.
pub open spec fn half_significand(i: u16) -> int {
    let (_, e, m) = half_fields(i);
    if e == 0 {
        m
    } else {
        0x400 + m
    }
}

pub open spec fn half_exponent(i: u16) -> int {
    let (_, e, _) = half_fields(i);
    if e == 0 {
        -24
    } else {
        e - 25
    }
}

/// A finite single is `significand * 2^exponent`, with its sign.
pub open spec fn single_significand(bits: u32) -> int {
    let (_, e, m) = single_fields(bits);
    if e == 0 {
        m
    } else {
        0x80_0000 + m
    }
}

pub open spec fn single_exponent(bits: u32) -> int {
    let (_, e, _) = single_fields(bits);
    if e == 0 {
        -149
    } else {
        e - 150
    }
}

/// Is the single the same number as the half, with the same sign? Infinities go to
/// infinities, and a NaN to a quiet NaN with its fraction in the high bits.
pub open spec fn widened(i: u16, bits: u32) -> bool {
    let (s, e, m) = half_fields(i);
    let (s2, e2, m2) = single_fields(bits);
    &&& s == s2
    &&& if e == 0x1f {
        &&& e2 == 0xff
        &&& m2 == if m == 0 {
            0
        } else if m < 0x200 {
            0x40_0000 + m * 0x2000
        } else {
            m * 0x2000
        }
    } else {
        &&& e2 != 0xff
        &&& single_exponent(bits) <= half_exponent(i)
        &&& single_significand(bits) == half_significand(i) * pow2(
            (half_exponent(i) - single_exponent(bits)) as nat,
        )
        &&& half_significand(i) == 0 ==> bits as int == s * 0x8000_0000
    }
}

/// A half-precision number as a single, by their bits. Exact: every half is a
/// single.
pub fn f16_to_f32(i: u16) -> (bits: u32)
    ensures
        widened(i, bits),
{
    let sign: u32 = (i / 0x8000) as u32 * 0x8000_0000;
    let exp: u32 = (i / 0x400 % 0x20) as u32;
    let man: u32 = (i % 0x400) as u32;
    if exp == 0 && man == 0 {
        assert(0 * pow2((half_exponent(i) - single_exponent(sign)) as nat) == 0);
        return sign;
    }
    if exp == 0x1f {
        if man == 0 {
            return sign + 0x7f80_0000;
        }
        let quiet: u32 = if man < 0x200 { 0x40_0000 } else { 0 };
        return sign + 0x7f80_0000 + quiet + man * 0x2000;
    }
    if exp == 0 {
        // shift the fraction up until its leading bit is the implicit one
        let mut m: u32 = man;
        let mut e: u32 = 0;
        proof {
            lemma_pow2_zero();
        }
        while m < 0x200
            invariant
                1 <= man < 0x400,
                man <= m < 0x400,
                e <= 9,
                m == man * pow2(e as nat),
                pow2(e as nat) <= m,
            decreases 0x400 - m,
        {
            proof {
                lemma_pow2_unfold((e + 1) as nat);
                let p = pow2(e as nat) as int;
                assert(man * (2 * p) == 2 * (man * p)) by (nonlinear_arith);
                pow2_small(e as nat);
            }
            m = m * 2;
            e = e + 1;
        }
        let bits: u32 = sign + (112 - e) * 0x80_0000 + (m - 0x200) * 0x4000;
        proof {
            lemma_pow2_adds(e as nat, 14);
            lemma_pow2_14();
            let p = pow2(e as nat) as int;
            assert(man * (p * 0x4000) == (man * p) * 0x4000) by (nonlinear_arith);
            assert(single_fields(bits).1 == 112 - e);
            assert(single_fields(bits).2 == (m - 0x200) * 0x4000);
        }
        return bits;
    }
    let bits: u32 = sign + (exp + 112) * 0x80_0000 + man * 0x2000;
    proof {
        lemma_pow2_14();
        assert(single_fields(bits).1 == exp + 112);
        assert(single_fields(bits).2 == man * 0x2000);
        assert((half_exponent(i) - single_exponent(bits)) as nat == 13nat);
        assert(half_significand(i) * pow2(13) == half_significand(i) * 0x2000);
        assert(single_fields(bits).0 == half_fields(i).0);
    }
    bits
}

proof fn lemma_pow2_zero()
    ensures
        pow2(0) == 1,
{
    reveal(pow2);
    reveal_with_fuel(vstd::arithmetic::power::pow, 2);
}

proof fn lemma_pow2_14()
    ensures
        pow2(13) == 0x2000,
        pow2(14) == 0x4000,
{
    reveal(pow2);
    reveal_with_fuel(vstd::arithmetic::power::pow, 16);
}

proof fn pow2_small(e: nat)
    requires
        e <= 9,
    ensures
        pow2(e) <= 0x200,
        e == 9 ==> pow2(e) == 0x200,
{
    reveal(pow2);
    reveal_with_fuel(vstd::arithmetic::power::pow, 11);
}

} // verus!
