//! What a bit pattern stands for: the number it denotes, as an integer
//! count of the smallest positive step `2^-149`.
//!
//! Every finite single-precision number is an integer multiple of
//! `2^-149`, so its size can be written down exactly as a natural
//! number.  The contracts of the rounding and scaling functions are
//! stated over that reading.
use vstd::prelude::*;
use vstd::arithmetic::power2::{
    pow2,
    lemma_pow2_pos,
    lemma_pow2_adds,
    lemma_pow2_unfold,
    lemma_pow2_strictly_increases,
    lemma2_to64,
};
use vstd::arithmetic::mul::{lemma_mul_strict_inequality, lemma_mul_inequality};
use vstd::arithmetic::div_mod::lemma_fundamental_div_mod_converse;
use crate::layout::{sign_of, exponent_of, mantissa_of};

verus! {

/// Zero, subnormal or normal: neither an infinity nor a NaN.
pub open spec fn is_finite(bits: u32) -> bool {
    exponent_of(bits) < 255
}

/// Positive or negative infinity.
pub open spec fn is_infinite(bits: u32) -> bool {
    exponent_of(bits) == 255 && mantissa_of(bits) == 0
}

/// Any NaN, quiet or signalling.
pub open spec fn is_nan(bits: u32) -> bool {
    exponent_of(bits) == 255 && mantissa_of(bits) != 0
}

/// A normal number: finite, with the implicit leading one.
pub open spec fn is_normal(bits: u32) -> bool {
    0 < exponent_of(bits) < 255
}

/// Positive or negative zero.
pub open spec fn is_zero(bits: u32) -> bool {
    exponent_of(bits) == 0 && mantissa_of(bits) == 0
}

/// The 24-bit significand: the mantissa field, with the implicit
/// leading one unless the stored exponent is zero.
pub open spec fn significand(bits: u32) -> nat {
    if exponent_of(bits) == 0 {
        mantissa_of(bits)
    } else {
        0x80_0000 + mantissa_of(bits)
    }
}

/// The power of two by which the significand is multiplied to give the
/// size in steps of `2^-149`.
pub open spec fn scale(bits: u32) -> nat {
    if exponent_of(bits) == 0 {
        0
    } else {
        (exponent_of(bits) - 1) as nat
    }
}

/// The size of the number, sign dropped, in steps of `2^-149`.
/// Meaningful for finite patterns.
pub open spec fn magnitude(bits: u32) -> nat {
    significand(bits) * pow2(scale(bits))
}

/// The number itself in steps of `2^-149`.  Both zeros have value `0`.
pub open spec fn value(bits: u32) -> int {
    if sign_of(bits) {
        -(magnitude(bits) as int)
    } else {
        magnitude(bits) as int
    }
}

/// The number `1.0` in steps of `2^-149`.
pub open spec fn one() -> nat {
    pow2(149)
}

/// The number `0.5` in steps of `2^-149`.
pub open spec fn half() -> nat {
    pow2(148)
}

/// `one()` is twice `half()`, and both are positive.
pub proof fn lemma_one_is_two_halves()
    ensures
        one() == 2 * half(),
        half() > 0,
{
    lemma_pow2_unfold(149);
    lemma_pow2_pos(148);
}

/// With the sign bit masked off, a larger pattern denotes a larger
/// size: the patterns are ordered as the numbers are.
pub proof fn lemma_magnitude_increases(a: u32, b: u32)
    requires
        a % 0x8000_0000 < b % 0x8000_0000,
    ensures
        magnitude(a) < magnitude(b),
{
    let ea = exponent_of(a);
    let eb = exponent_of(b);
    lemma_pow2_pos(scale(a));
    lemma_pow2_pos(scale(b));
    if ea == eb {
        lemma_mul_strict_inequality(
            significand(a) as int,
            significand(b) as int,
            pow2(scale(a)) as int,
        );
    } else {
        let top: nat = if ea == 0 { 0 } else { ea };
        // magnitude(a) stays below 2^23 * 2^top ...
        assert(magnitude(a) < 0x80_0000 * pow2(top)) by {
            if ea == 0 {
                lemma2_to64();
            } else {
                lemma_pow2_unfold(ea);
                lemma_mul_strict_inequality(
                    significand(a) as int,
                    0x100_0000,
                    pow2(scale(a)) as int,
                );
            }
        }
        // ... which magnitude(b) reaches.
        assert(0x80_0000 * pow2(top) <= 0x80_0000 * pow2(scale(b))) by {
            if top < scale(b) {
                lemma_pow2_strictly_increases(top, scale(b));
            }
        }
        assert(0x80_0000 * pow2(scale(b)) <= magnitude(b)) by {
            lemma_mul_inequality(0x80_0000, significand(b) as int, pow2(scale(b)) as int);
        }
    }
}

/// A sign and a size belong to one pattern only: two patterns with the
/// same sign bit and the same magnitude are equal.
pub proof fn lemma_sign_and_magnitude_determine_bits(a: u32, b: u32)
    requires
        sign_of(a) == sign_of(b),
        magnitude(a) == magnitude(b),
    ensures
        a == b,
{
    if a % 0x8000_0000 < b % 0x8000_0000 {
        lemma_magnitude_increases(a, b);
    } else if b % 0x8000_0000 < a % 0x8000_0000 {
        lemma_magnitude_increases(b, a);
    }
}

/// Only the two zeros have magnitude zero.
pub proof fn lemma_magnitude_zero(bits: u32)
    ensures
        magnitude(bits) == 0 <==> is_zero(bits),
{
    let s = significand(bits);
    let p = pow2(scale(bits));
    lemma_pow2_pos(scale(bits));
    assert((s * p == 0) <==> s == 0) by (nonlinear_arith)
        requires
            p > 0,
    ;
}

/// The pattern `0x3f80_0000` denotes `1.0`.
pub proof fn lemma_magnitude_of_one()
    ensures
        magnitude(0x3f80_0000) == one(),
{
    lemma2_to64();
    lemma_pow2_adds(23, 126);
}

/// Quotient and remainder are what they have to be.
pub(crate) proof fn lemma_quotient(m: int, u: int, d: int, r: int)
    requires
        u > 0,
        0 <= r < u,
        m == d * u + r,
    ensures
        m / u == d,
        m % u == r,
{
    lemma_fundamental_div_mod_converse(m, u, d, r);
}

/// Below `1.0` the whole part is zero; from `0.5` on, the fractional
/// part is at least one half.
pub(crate) proof fn lemma_below_one(bits: u32)
    requires
        exponent_of(bits) < 127,
    ensures
        magnitude(bits) / one() == 0,
        (magnitude(bits) / one()) * one() == 0,
        magnitude(bits) % one() == magnitude(bits),
        (2 * magnitude(bits) >= one()) == (exponent_of(bits) == 126),
{
    let e = exponent_of(bits);
    let s = significand(bits) as int;
    let p = pow2(scale(bits)) as int;
    lemma_pow2_pos(scale(bits));
    lemma_one_is_two_halves();
    if e == 126 {
        // 2^23 * 2^125 = 2^148 <= m < 2^24 * 2^125 = 2^149
        lemma2_to64();
        lemma_pow2_adds(23, 125);
        lemma_pow2_adds(24, 125);
        assert(0x80_0000 * p <= s * p < 0x100_0000 * p) by (nonlinear_arith)
            requires
                0x80_0000 <= s < 0x100_0000,
                p > 0,
        ;
    } else {
        // m < 2^24 * 2^scale <= 2^24 * 2^124 = 2^148
        lemma2_to64();
        lemma_pow2_adds(24, 124);
        if scale(bits) < 124 {
            lemma_pow2_strictly_increases(scale(bits), 124);
        }
        let top = pow2(124) as int;
        assert(s * p < 0x100_0000 * top) by (nonlinear_arith)
            requires
                0 <= s < 0x100_0000,
                0 < p <= top,
        ;
    }
    lemma_quotient(magnitude(bits) as int, one() as int, 0, magnitude(bits) as int);
    assert(0 * one() == 0);
}

/// Powers of two do not fall as the exponent grows.
pub(crate) proof fn lemma_pow2_grows(a: nat, b: nat)
    requires
        a <= b,
    ensures
        pow2(a) <= pow2(b),
{
    if a < b {
        lemma_pow2_strictly_increases(a, b);
    }
}

/// A normal number with stored exponent `e` lies in the binade of
/// `2^(e - 127)`: in steps of `2^-149`, from `2^(e + 22)` up to but not
/// including `2^(e + 23)`.
pub proof fn lemma_normal_magnitude_range(bits: u32)
    requires
        is_normal(bits),
    ensures
        pow2(exponent_of(bits) + 22) <= magnitude(bits) < pow2(exponent_of(bits) + 23),
{
    let e = exponent_of(bits);
    let s = significand(bits) as int;
    let p = pow2((e - 1) as nat) as int;
    lemma2_to64();
    lemma_pow2_pos((e - 1) as nat);
    lemma_pow2_adds(23, (e - 1) as nat);
    lemma_pow2_adds(24, (e - 1) as nat);
    assert(0x80_0000 * p <= s * p < 0x100_0000 * p) by (nonlinear_arith)
        requires
            0x80_0000 <= s < 0x100_0000,
            p > 0,
    ;
}

} // verus!
