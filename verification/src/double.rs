//! Which double a decimal number is rounded to.
use crate::accept::{exponent, is_finite, significand};
use crate::number::pow10;
use vstd::arithmetic::power2::{lemma2_to64, lemma_pow2_pos, lemma_pow2_unfold, pow2};
use vstd::prelude::*;

verus! {

/// The bits of a double without its sign: as numbers, they are ordered as the doubles
/// are.
pub open spec fn unsigned_bits(bits: u64) -> nat {
    (bits % 0x8000_0000_0000_0000) as nat
}

/// The double with the unsigned bits `b`, in units of `2^-1074`, the smallest there is.
/// What follows the largest double is counted as `2^1024`.
pub open spec fn magnitude(b: nat) -> nat {
    let e = b / 0x10_0000_0000_0000;
    let f = b % 0x10_0000_0000_0000;
    if e == 0 {
        f
    } else {
        (0x10_0000_0000_0000 + f) * pow2((e - 1) as nat)
    }
}

/// Twice the absolute value of a number in units of `2^-1074`, as a fraction.
pub open spec fn doubled(t: Seq<u8>) -> (nat, nat) {
    let e = exponent(t);
    let m = 2 * significand(t) * pow2(1074);
    if e >= 0 {
        (m * pow10(e as nat), 1)
    } else {
        (m, pow10((-e) as nat))
    }
}

/// Does the number lie between the midpoints around the double with the unsigned bits
/// `b`? A midpoint belongs to the even one of its neighbours.
pub open spec fn nearest(t: Seq<u8>, b: nat) -> bool {
    let (x, den) = doubled(t);
    let even = b % 2 == 0;
    let above = (magnitude(b) + magnitude(b + 1)) * den;
    &&& x < above || (even && x == above)
    &&& b > 0 ==> {
        let below = (magnitude((b - 1) as nat) + magnitude(b)) * den;
        below < x || (even && below == x)
    }
}

/// Is the number finite as a double, and this the nearest one, with its sign?
pub open spec fn rounds_to(t: Seq<u8>, bits: u64) -> bool {
    &&& is_finite(t)
    &&& unsigned_bits(bits) < 0x7ff0_0000_0000_0000
    &&& (bits >= 0x8000_0000_0000_0000) == (t[0] == 0x2d)
    &&& nearest(t, unsigned_bits(bits))
}

/// A double is less than the next.
proof fn magnitude_next(b: nat)
    ensures
        magnitude(b) < magnitude(b + 1),
{
    let m: nat = 0x10_0000_0000_0000;
    let e = b / m;
    let f = b % m;
    if e > 0 {
        lemma_pow2_pos((e - 1) as nat);
    }
    let p = pow2((e - 1) as nat);
    if f + 1 < m {
        assert((b + 1) / m == e && (b + 1) % m == f + 1);
        if e > 0 {
            assert((m + f) * p < (m + (f + 1)) * p) by (nonlinear_arith)
                requires
                    p > 0,
            ;
        }
    } else {
        assert((b + 1) / m == e + 1 && (b + 1) % m == 0);
        if e == 0 {
            lemma2_to64();
            assert(magnitude(b + 1) == m);
        } else {
            lemma_pow2_unfold(e);
            assert(pow2(e) == 2 * p);
            assert(magnitude(b) == (m + f) * p);
            assert(magnitude(b + 1) == (m + 0nat) * pow2(e));
            assert((m + f) * p < m * (2 * p)) by (nonlinear_arith)
                requires
                    p > 0,
                    f < m,
            ;
        }
    }
}

/// Doubles grow with their bits.
proof fn magnitude_grows(a: nat, b: nat)
    requires
        a <= b,
    ensures
        magnitude(a) <= magnitude(b),
        a < b ==> magnitude(a) < magnitude(b),
    decreases b - a,
{
    if a < b {
        magnitude_grows(a, (b - 1) as nat);
        magnitude_next((b - 1) as nat);
    }
}

proof fn pow10_pos(k: nat)
    ensures
        pow10(k) > 0,
    decreases k,
{
    if k > 0 {
        pow10_pos((k - 1) as nat);
    }
}

/// What is nearest to a number is nearest alone.
proof fn nearest_is_one(t: Seq<u8>, a: nat, b: nat)
    requires
        a <= b,
        nearest(t, a),
        nearest(t, b),
    ensures
        a == b,
{
    if a < b {
        let (x, den) = doubled(t);
        pow10_pos((-exponent(t)) as nat);
        let above = magnitude(a) + magnitude(a + 1);
        let below = magnitude((b - 1) as nat) + magnitude(b);
        magnitude_grows(a, (b - 1) as nat);
        magnitude_grows(a + 1, b);
        assert(above * den <= below * den) by (nonlinear_arith)
            requires
                above <= below,
                den > 0,
        ;
        assert(above < below ==> above * den < below * den) by (nonlinear_arith)
            requires
                den > 0,
        ;
        // the number is the midpoint above one and below the other, so they are neighbours
        assert(above == below);
        assert(a == b - 1);
    }
}

/// A number is rounded to one double only.
pub proof fn rounds_to_one(t: Seq<u8>, a: u64, b: u64)
    requires
        rounds_to(t, a),
        rounds_to(t, b),
    ensures
        a == b,
{
    let x = unsigned_bits(a);
    let y = unsigned_bits(b);
    if x <= y {
        nearest_is_one(t, x, y);
    } else {
        nearest_is_one(t, y, x);
    }
}

} // verus!
