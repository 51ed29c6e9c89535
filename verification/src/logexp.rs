//! Range reduction for the natural logarithm and reconstruction for the
//! exponential: the two steps that work on the exponent field.
//!
//! `ln(x)` is computed from `x = m * 2^e` with `m` in `[1, 2)` as
//! `ln(m) + e * ln(2)`; [`ln_reduce`] finds `m` and `e`, or says which
//! fixed answer the argument calls for.  `exp(x)` is computed from
//! `x = k * ln(2) + r` as `exp(r) * 2^k`; [`scale_by_pow2`] does the
//! multiplication by `2^k` by adding `k` to the exponent field.
use vstd::prelude::*;
use vstd::arithmetic::power2::{
    pow2,
    lemma_pow2_pos,
    lemma_pow2_adds,
    lemma_pow2_unfold,
    lemma_pow2_strictly_increases,
    lemma2_to64,
};
use vstd::arithmetic::div_mod::{lemma_fundamental_div_mod, lemma_mod_bound};
use vstd::bits::lemma_u32_shr_is_div;
use crate::layout::{
    sign_of,
    exponent_of,
    mantissa_of,
    pack,
    compose,
    normalize,
    extract_sign_bit,
    extract_exponent_bits,
    extract_mantissa_bits,
    lemma_fields_of_pack,
};
use crate::value::{
    is_finite,
    is_nan,
    is_infinite,
    is_zero,
    is_normal,
    magnitude,
    value,
    one,
    half,
    lemma_one_is_two_halves,
    lemma_normal_magnitude_range,
    lemma_pow2_grows,
    lemma_sign_and_magnitude_determine_bits,
    lemma_quotient,
    lemma_below_one,
};
use crate::rounding::round;

verus! {

/// What the logarithm has to do with its argument.
#[derive(Clone, Copy, Debug, PartialEq, Eq)]
pub enum LnReduction {
    /// The argument is a NaN or is below zero: the logarithm is NaN.
    NotANumber,
    /// The argument is zero, of either sign: the logarithm is `-inf`.
    NegativeInfinity,
    /// The argument is `+inf`, and so is its logarithm.
    PositiveInfinity,
    /// The argument is `mantissa * 2^exponent`, with `mantissa` the
    /// pattern of a number in `[1, 2)`.
    Reduced { mantissa: u32, exponent: i32 },
}

/// `x = m * 2^e` with `m` in `[1, 2)`, for a positive finite `x`.
pub open spec fn is_reduced(x: u32, m: u32, e: int) -> bool {
    &&& !sign_of(m)
    &&& exponent_of(m) == 127
    &&& -149 <= e <= 127
    &&& e >= 0 ==> magnitude(x) == magnitude(m) * pow2(e as nat)
    &&& e < 0 ==> magnitude(x) * pow2((-e) as nat) == magnitude(m)
}

/// The reduction that belongs to each argument.
pub open spec fn is_ln_reduction(x: u32, r: LnReduction) -> bool {
    if is_nan(x) || (sign_of(x) && !is_zero(x)) {
        r == LnReduction::NotANumber
    } else if is_zero(x) {
        r == LnReduction::NegativeInfinity
    } else if is_infinite(x) {
        r == LnReduction::PositiveInfinity
    } else {
        &&& r matches LnReduction::Reduced { mantissa, exponent }
        &&& is_reduced(x, mantissa, exponent as int)
        &&& is_normal(x) ==> mantissa == pack(false, 127, mantissa_of(x)) && exponent
            == exponent_of(x) - 127
    }
}

/// Splits the argument of the logarithm into mantissa and exponent.
///
/// Subnormal arguments are normalised first, so the split is exact for
/// every positive finite number.  Outside the domain the policy is:
/// zero gives `-inf`, anything below zero gives NaN, NaN gives NaN and
/// `+inf` gives `+inf`.
pub fn ln_reduce(bits: u32) -> (r: LnReduction)
    ensures
        is_ln_reduction(bits, r),
{
    let e: u32 = extract_exponent_bits(bits);
    let f: u32 = extract_mantissa_bits(bits);
    let negative = extract_sign_bit(bits);
    if e == 255 && f != 0 {
        LnReduction::NotANumber
    } else if e == 0 && f == 0 {
        LnReduction::NegativeInfinity
    } else if negative {
        LnReduction::NotANumber
    } else if e == 255 {
        LnReduction::PositiveInfinity
    } else if e == 0 {
        let (shift, shifted) = normalize(f);
        let mantissa = compose(false, 127, extract_mantissa_bits(shifted));
        let exponent: i32 = -126 - (shift as i32);
        proof {
            lemma_fields_of_pack(false, 127, mantissa_of(shifted));
            lemma2_to64();
            // f * 2^(126 + shift) == (f * 2^shift) * 2^126
            lemma_pow2_adds(shift as nat, 126);
            let step = pow2(shift as nat) as int;
            let base = pow2(126) as int;
            assert(f * (step * base) == (f * step) * base) by (nonlinear_arith);
            let unit = pow2(0) as int;
            assert(f * unit == f) by (nonlinear_arith)
                requires
                    unit == 1,
            ;
            assert(magnitude(mantissa) == shifted * base);
        }
        LnReduction::Reduced { mantissa, exponent }
    } else {
        let mantissa = compose(false, 127, f);
        let exponent: i32 = e as i32 - 127;
        proof {
            lemma_fields_of_pack(false, 127, f as nat);
            let s = (0x80_0000 + f) as int;
            let base = pow2(126) as int;
            assert(magnitude(mantissa) == s * base);
            if e >= 127 {
                lemma_pow2_adds(126, (e - 127) as nat);
                let up = pow2((e - 127) as nat) as int;
                assert(s * (base * up) == (s * base) * up) by (nonlinear_arith);
            } else {
                lemma_pow2_adds((e - 1) as nat, (127 - e) as nat);
                let low = pow2((e - 1) as nat) as int;
                let up = pow2((127 - e) as nat) as int;
                assert(s * (low * up) == (s * low) * up) by (nonlinear_arith);
            }
        }
        LnReduction::Reduced { mantissa, exponent }
    }
}

/// A reduced mantissa lies in `[1, 2)`.
pub proof fn lemma_reduced_mantissa_range(x: u32, m: u32, e: int)
    requires
        is_reduced(x, m, e),
    ensures
        one() <= magnitude(m) < 2 * one(),
{
    lemma2_to64();
    lemma_pow2_adds(23, 126);
    lemma_pow2_pos(126);
    let s = (0x80_0000 + mantissa_of(m)) as int;
    let base = pow2(126) as int;
    assert(0x80_0000 * base <= s * base < 2 * (0x80_0000 * base)) by (nonlinear_arith)
        requires
            0x80_0000 <= s < 0x100_0000,
            base > 0,
    ;
}

/// Both directions of a reduction in one equation, free of the sign
/// of the exponent: `x * 2^149 = m * 2^(e + 149)`.
proof fn lemma_reduced_lifted(x: u32, m: u32, e: int)
    requires
        is_reduced(x, m, e),
    ensures
        magnitude(x) * pow2(149) == magnitude(m) * pow2((e + 149) as nat),
{
    let big = magnitude(x) as int;
    let small = magnitude(m) as int;
    let lift = pow2(149) as int;
    if e >= 0 {
        let up = pow2(e as nat) as int;
        lemma_pow2_adds(e as nat, 149);
        assert((small * up) * lift == small * (up * lift)) by (nonlinear_arith);
    } else {
        let down = pow2((-e) as nat) as int;
        let rest = pow2((e + 149) as nat) as int;
        lemma_pow2_adds((-e) as nat, (e + 149) as nat);
        assert(big * (down * rest) == (big * down) * rest) by (nonlinear_arith);
    }
}

/// A number has one reduction only: mantissa and exponent are
/// determined by `x = m * 2^e` and `m` in `[1, 2)`.
pub proof fn lemma_reduction_is_determined(x: u32, m1: u32, e1: int, m2: u32, e2: int)
    requires
        is_reduced(x, m1, e1),
        is_reduced(x, m2, e2),
    ensures
        m1 == m2,
        e1 == e2,
{
    lemma_reduced_lifted(x, m1, e1);
    lemma_reduced_lifted(x, m2, e2);
    lemma_reduced_mantissa_range(x, m1, e1);
    lemma_reduced_mantissa_range(x, m2, e2);
    lemma_pow2_pos(149);
    let a1 = magnitude(m1) as int;
    let a2 = magnitude(m2) as int;
    let u = one() as int;
    let n1 = (e1 + 149) as nat;
    let n2 = (e2 + 149) as nat;
    let p1 = pow2(n1) as int;
    let p2 = pow2(n2) as int;
    lemma_pow2_pos(n1);
    lemma_pow2_pos(n2);
    if n1 < n2 {
        lemma_pow2_grows(n1 + 1, n2);
        lemma_pow2_unfold(n1 + 1);
        assert(false) by (nonlinear_arith)
            requires
                a1 * p1 == a2 * p2,
                p2 >= 2 * p1,
                p1 > 0,
                u <= a1 < 2 * u,
                u <= a2 < 2 * u,
        ;
    } else if n2 < n1 {
        lemma_pow2_grows(n2 + 1, n1);
        lemma_pow2_unfold(n2 + 1);
        assert(false) by (nonlinear_arith)
            requires
                a1 * p1 == a2 * p2,
                p1 >= 2 * p2,
                p2 > 0,
                u <= a1 < 2 * u,
                u <= a2 < 2 * u,
        ;
    }
    assert(a1 == a2) by (nonlinear_arith)
        requires
            a1 * p1 == a2 * p1,
            p1 > 0,
    ;
    lemma_sign_and_magnitude_determine_bits(m1, m2);
}

/// The pattern that [`scale_by_pow2`] returns.
pub open spec fn scaled(x: u32, k: int) -> u32 {
    let stored = exponent_of(x) + k;
    if exponent_of(x) == 255 {
        x
    } else if exponent_of(x) == 0 || stored <= 0 {
        pack(sign_of(x), 0, 0)
    } else if stored >= 255 {
        pack(sign_of(x), 255, 0)
    } else {
        pack(sign_of(x), stored as nat, mantissa_of(x))
    }
}

/// Multiplies by `2^k` by adding `k` to the stored exponent.
///
/// The product is exact whenever the argument is a normal number and
/// the product is one too.  A product of `2^128` or more in size
/// becomes an infinity of the same sign.  Numbers below the normal
/// range are flushed: a subnormal argument counts as zero, and a
/// product below `2^-126` in size becomes a zero of the same sign.
/// Infinities and NaNs are returned unchanged.
pub fn scale_by_pow2(bits: u32, k: i32) -> (r: u32)
    ensures
        r == scaled(bits, k as int),
        is_normal(bits) && is_normal(r) && k >= 0 ==> magnitude(r) == magnitude(bits) * pow2(
            k as nat,
        ),
        is_normal(bits) && is_normal(r) && k < 0 ==> magnitude(r) * pow2((-k) as nat) == magnitude(
            bits,
        ),
{
    let e: u32 = extract_exponent_bits(bits);
    let negative = extract_sign_bit(bits);
    if e == 255 {
        return bits;
    }
    if e == 0 {
        return compose(negative, 0, 0);
    }
    let stored: i64 = e as i64 + k as i64;
    if stored <= 0 {
        compose(negative, 0, 0)
    } else if stored >= 255 {
        compose(negative, 255, 0)
    } else {
        let f: u32 = extract_mantissa_bits(bits);
        let r = compose(negative, stored as u32, f);
        proof {
            lemma_fields_of_pack(negative, stored as nat, f as nat);
            let s = (0x80_0000 + f) as int;
            if k >= 0 {
                lemma_pow2_adds((e - 1) as nat, k as nat);
                let low = pow2((e - 1) as nat) as int;
                let up = pow2(k as nat) as int;
                assert(s * (low * up) == (s * low) * up) by (nonlinear_arith);
            } else {
                lemma_pow2_adds((stored - 1) as nat, (-k) as nat);
                let low = pow2((stored - 1) as nat) as int;
                let up = pow2((-k) as nat) as int;
                assert(s * (low * up) == (s * low) * up) by (nonlinear_arith);
            }
        }
        r
    }
}

/// Scaling up overflows exactly when the product reaches `2^128`,
/// which is `2^277` steps of `2^-149`; it never flushes.
pub proof fn lemma_scale_up_overflows_at_the_top(x: u32, k: int)
    requires
        is_normal(x),
        k >= 0,
    ensures
        is_infinite(scaled(x, k)) <==> magnitude(x) * pow2(k as nat) >= pow2(277),
        !is_infinite(scaled(x, k)) ==> is_normal(scaled(x, k)),
{
    let e = exponent_of(x);
    let m = magnitude(x) as int;
    let step = pow2(k as nat) as int;
    lemma_normal_magnitude_range(x);
    lemma_pow2_pos(k as nat);
    lemma_pow2_adds(e + 22, k as nat);
    lemma_pow2_adds(e + 23, k as nat);
    let low = pow2(e + 22) as int;
    let high = pow2(e + 23) as int;
    assert(low * step <= m * step < high * step) by (nonlinear_arith)
        requires
            low <= m < high,
            step > 0,
    ;
    if e + k >= 255 {
        lemma_pow2_grows(277, (e + 22 + k) as nat);
        lemma_fields_of_pack(sign_of(x), 255, 0);
    } else {
        lemma_pow2_grows((e + 23 + k) as nat, 277);
        lemma_fields_of_pack(sign_of(x), (e + k) as nat, mantissa_of(x));
    }
}

/// Scaling down flushes to zero exactly when the product falls below
/// `2^-126`, which is `2^23` steps of `2^-149`; it never overflows.
pub proof fn lemma_scale_down_flushes_at_the_bottom(x: u32, k: int)
    requires
        is_normal(x),
        k < 0,
    ensures
        is_zero(scaled(x, k)) <==> magnitude(x) < pow2(23) * pow2((-k) as nat),
        !is_zero(scaled(x, k)) ==> is_normal(scaled(x, k)),
{
    let e = exponent_of(x);
    let n = (-k) as nat;
    lemma_normal_magnitude_range(x);
    lemma_pow2_adds(23, n);
    if e + k <= 0 {
        lemma_pow2_grows(e + 23, 23 + n);
        lemma_fields_of_pack(sign_of(x), 0, 0);
    } else {
        lemma_pow2_grows(23 + n, e + 22);
        lemma_fields_of_pack(sign_of(x), (e + k) as nat, mantissa_of(x));
    }
}

/// What the exponential has to do with `t = x / ln(2)`.
#[derive(Clone, Copy, Debug, PartialEq, Eq)]
pub enum ExpReduction {
    /// The argument is a NaN, and so is the exponential.
    NotANumber,
    /// `t` rounds to more than 128: the exponential is `+inf`.
    Overflow,
    /// `t` rounds to less than -127: the exponential is flushed to zero.
    Underflow,
    /// `t` rounds to `k`: the exponential is `exp(x - k * ln(2)) * 2^k`.
    Multiple { k: i32 },
}

/// The whole number nearest to `t`, ties away from zero.
pub open spec fn nearest_whole(t: u32) -> int {
    let q = ((magnitude(t) + half()) / one()) as int;
    if sign_of(t) {
        -q
    } else {
        q
    }
}

/// The nearest whole number is within one half of `t`, so that the
/// remainder of the exponential's argument is within `ln(2) / 2`.
pub proof fn lemma_nearest_whole_is_near(t: u32)
    requires
        is_finite(t),
    ensures
        -half() <= value(t) - nearest_whole(t) * one() <= half(),
{
    let m = magnitude(t) as int;
    let u = one() as int;
    let h = half() as int;
    let q = (m + h) / u;
    lemma_one_is_two_halves();
    lemma_fundamental_div_mod(m + h, u);
    lemma_mod_bound(m + h, u);
    assert(u * q == q * u && (-q) * u == -(q * u)) by (nonlinear_arith);
}

/// The reduction that belongs to each `t`.
pub open spec fn exp_reduction_of(t: u32) -> ExpReduction {
    if is_nan(t) {
        ExpReduction::NotANumber
    } else if is_infinite(t) || nearest_whole(t) > 128 || nearest_whole(t) < -127 {
        if sign_of(t) {
            ExpReduction::Underflow
        } else {
            ExpReduction::Overflow
        }
    } else {
        ExpReduction::Multiple { k: nearest_whole(t) as i32 }
    }
}

/// A whole number with a stored exponent of at least 135 is 256 or
/// more in size.
proof fn lemma_whole_is_large(w: u32, q: int)
    requires
        135 <= exponent_of(w) < 255,
        magnitude(w) == q * one(),
    ensures
        q >= 256,
{
    let e = exponent_of(w);
    let s = (0x80_0000 + mantissa_of(w)) as int;
    let scale = pow2((e - 1) as nat) as int;
    let u = one() as int;
    lemma2_to64();
    lemma_pow2_pos(149);
    // 2^23 * 2^(e-1) >= 2^23 * 2^134 = 2^8 * 2^149
    lemma_pow2_adds(23, 134);
    lemma_pow2_adds(8, 149);
    if e > 135 {
        lemma_pow2_strictly_increases(134, (e - 1) as nat);
    }
    let floor = pow2(134) as int;
    assert(q >= 256) by (nonlinear_arith)
        requires
            s * scale == q * u,
            0x80_0000 * floor == 256 * u,
            s >= 0x80_0000,
            scale >= floor,
            floor > 0,
            u > 0,
    ;
}

/// A whole number below 256 in size is its significand shifted down
/// to the units place.
proof fn lemma_whole_is_shifted_significand(w: u32, q: int)
    requires
        127 <= exponent_of(w) < 135,
        magnitude(w) == q * one(),
    ensures
        q == ((0x80_0000 + mantissa_of(w)) as u32) >> ((150 - exponent_of(w)) as u32),
        1 <= q < 256,
{
    let e = exponent_of(w);
    let s = (0x80_0000 + mantissa_of(w)) as u32;
    let shift = (150 - e) as u32;
    let n = (s >> shift) as int;
    let step = pow2(shift as nat) as int;
    let scale = pow2((e - 1) as nat) as int;
    let u = one() as int;
    lemma_u32_shr_is_div(s, shift);
    lemma_pow2_pos(shift as nat);
    lemma_pow2_pos((e - 1) as nat);
    lemma_pow2_adds(shift as nat, (e - 1) as nat);
    lemma_fundamental_div_mod(s as int, step);
    lemma_mod_bound(s as int, step);
    let rest = s as int % step;
    assert(s * scale == n * u + rest * scale && 0 <= rest * scale < u) by (nonlinear_arith)
        requires
            s == step * n + rest,
            0 <= rest < step,
            u == step * scale,
            scale > 0,
    ;
    lemma_quotient(magnitude(w) as int, u, n, rest * scale);
    lemma_quotient(magnitude(w) as int, u, q, 0);
    lemma2_to64();
    if shift > 16 {
        lemma_pow2_strictly_increases(16, shift as nat);
    }
    assert(1 <= n < 256) by (nonlinear_arith)
        requires
            s == step * n + rest,
            0 <= rest < step,
            0x80_0000 <= s < 0x100_0000,
            0x1_0000 <= step <= 0x80_0000,
    ;
}

/// Rounds `t = x / ln(2)` to the multiple `k` of `ln(2)` that the
/// exponential splits off, or says that the result is out of range
/// whatever the remainder is.
///
/// With `|r| <= ln(2) / 2`, `exp(r)` lies between `0.70` and `1.42`:
/// from `k = 129` on the product with `2^k` is beyond the largest
/// finite number, and from `k = -128` down it is below the smallest
/// normal one.
pub fn exp_reduce(t: u32) -> (r: ExpReduction)
    ensures
        r == exp_reduction_of(t),
        r matches ExpReduction::Multiple { k } ==> -127 <= k <= 128,
{
    let negative = extract_sign_bit(t);
    if extract_exponent_bits(t) == 255 {
        return if extract_mantissa_bits(t) != 0 {
            ExpReduction::NotANumber
        } else if negative {
            ExpReduction::Underflow
        } else {
            ExpReduction::Overflow
        };
    }
    let whole: u32 = round(t);
    let e: u32 = extract_exponent_bits(whole);
    let ghost q = ((magnitude(t) + half()) / one()) as int;
    proof {
        lemma_pow2_pos(149);
    }
    if e >= 135 {
        proof {
            lemma_whole_is_large(whole, q);
        }
        return if negative {
            ExpReduction::Underflow
        } else {
            ExpReduction::Overflow
        };
    }
    let n: u32 = if e < 127 {
        proof {
            lemma_below_one(whole);
            let u = one() as int;
            assert(q == 0) by (nonlinear_arith)
                requires
                    0 <= q * u < u,
                    q >= 0,
            ;
        }
        0
    } else {
        proof {
            lemma_whole_is_shifted_significand(whole, q);
        }
        (0x80_0000 + extract_mantissa_bits(whole)) >> (150 - e)
    };
    if negative {
        if n > 127 {
            ExpReduction::Underflow
        } else {
            ExpReduction::Multiple { k: -(n as i32) }
        }
    } else {
        if n > 128 {
            ExpReduction::Overflow
        } else {
            ExpReduction::Multiple { k: n as i32 }
        }
    }
}

} // verus!
