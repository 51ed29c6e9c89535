//! Rounding to whole numbers, and the fractional part.
//!
//! All five functions read the integer and the fractional part straight
//! off the exponent and the mantissa: the stored exponent says how many
//! of the low mantissa bits lie below the units place.  Nothing is
//! converted to an integer type, so the functions are exact on the whole
//! finite range, and every one of them keeps the sign bit of its input,
//! zeros included.
//!
//! A NaN is handed back unchanged.  An infinity is its own `trunc`,
//! `floor`, `ceil` and `round`.
use vstd::prelude::*;
use vstd::arithmetic::power2::{pow2, lemma_pow2_pos, lemma_pow2_adds, lemma_pow2_unfold};
use vstd::arithmetic::div_mod::{lemma_fundamental_div_mod, lemma_mod_bound};
use vstd::bits::{lemma_u32_shl_is_mul, lemma_u32_shr_is_div, lemma_u32_pow2_no_overflow};
use crate::layout::{
    SIGN_MASK,
    sign_of,
    exponent_of,
    mantissa_of,
    compose,
    normalize,
    extract_sign_bit,
    extract_exponent_bits,
    extract_mantissa_bits,
    lemma_field_masks,
    lemma_pack_of_fields,
    lemma_fields_of_pack,
};
use crate::sign::{copysign, negate};
use crate::value::{
    is_finite,
    is_infinite,
    is_nan,
    significand,
    scale,
    magnitude,
    value,
    one,
    half,
    lemma_one_is_two_halves,
    lemma_magnitude_zero,
    lemma_magnitude_of_one,
    lemma_sign_and_magnitude_determine_bits,
    lemma_quotient,
    lemma_below_one,
};

verus! {

/// The pattern of `1.0`.
pub const ONE_BITS: u32 = 0x3f80_0000;

/// The quiet NaN with a clear sign bit and no payload.
pub const QUIET_NAN_BITS: u32 = 0x7fc0_0000;

/// `r` is `x` rounded toward zero.
pub open spec fn is_trunc(x: u32, r: u32) -> bool {
    &&& sign_of(r) == sign_of(x)
    &&& is_finite(x) ==> is_finite(r) && magnitude(r) == (magnitude(x) / one()) * one()
    &&& !is_finite(x) ==> r == x
}

/// `r` is `x` rounded to the nearest whole number, ties away from zero.
pub open spec fn is_round(x: u32, r: u32) -> bool {
    &&& sign_of(r) == sign_of(x)
    &&& is_finite(x) ==> is_finite(r) && magnitude(r) == ((magnitude(x) + half()) / one()) * one()
    &&& !is_finite(x) ==> r == x
}

/// `r` is `x` rounded toward negative infinity.
pub open spec fn is_floor(x: u32, r: u32) -> bool {
    &&& sign_of(r) == sign_of(x)
    &&& is_finite(x) ==> is_finite(r) && value(r) == (value(x) / (one() as int)) * one()
    &&& !is_finite(x) ==> r == x
}

/// `r` is `x` rounded toward positive infinity.
pub open spec fn is_ceil(x: u32, r: u32) -> bool {
    &&& sign_of(r) == sign_of(x)
    &&& is_finite(x) ==> is_finite(r) && value(r) == -((-value(x)) / (one() as int)) * one()
    &&& !is_finite(x) ==> r == x
}

/// `r` is the fractional part of `x`.
pub open spec fn is_fract(x: u32, r: u32) -> bool {
    &&& is_finite(x) ==> {
        &&& is_finite(r)
        &&& magnitude(r) == magnitude(x) % one()
        &&& sign_of(r) == (sign_of(x) && magnitude(r) != 0)
    }
    &&& is_nan(x) ==> r == x
    &&& is_infinite(x) ==> r == QUIET_NAN_BITS
}

/// The two whole numbers that enclose `|x|`, and where `|x|` lies
/// between them.  Both patterns have a clear sign bit.
struct Grid {
    /// The largest whole number that is not above `|x|`.
    lower: u32,
    /// The next whole number; meaningful only when `inexact`.
    upper: u32,
    /// Whether `|x|` has a fractional part.
    inexact: bool,
    /// Whether the fractional part of `|x|` is at least one half.
    half_or_more: bool,
}

/// What `grid` promises of a finite pattern.
spec fn is_grid_of(bits: u32, g: Grid) -> bool {
    let m = magnitude(bits) as int;
    let u = one() as int;
    &&& !sign_of(g.lower)
    &&& is_finite(g.lower)
    &&& magnitude(g.lower) == (m / u) * u
    &&& g.inexact == (m % u != 0)
    &&& g.half_or_more == (2 * (m % u) >= u)
    &&& g.inexact ==> !sign_of(g.upper) && is_finite(g.upper) && magnitude(g.upper) == magnitude(
        g.lower,
    ) + u
}

/// From `2^23` on every number is whole.
proof fn lemma_grid_large(bits: u32)
    requires
        150 <= exponent_of(bits) < 255,
    ensures
        (magnitude(bits) / one()) * one() == magnitude(bits),
        magnitude(bits) % one() == 0,
{
    let e = exponent_of(bits);
    let s = significand(bits) as int;
    let extra = pow2((e - 150) as nat) as int;
    let u = one() as int;
    lemma_pow2_adds((e - 150) as nat, 149);
    lemma_pow2_pos(149);
    assert(s * (extra * u) == (s * extra) * u) by (nonlinear_arith);
    lemma_quotient(magnitude(bits) as int, u, s * extra, 0);
}

/// The bit operations of the middle range, where the units place lies
/// inside the mantissa: `k` mantissa bits are below it.
proof fn lemma_grid_middle_bits(p: u32, k: u32)
    by (bit_vector)
    requires
        1 <= k <= 23,
        p / 0x80_0000u32 == 150u32 - k,
    ensures
        ({
            let q = 1u32 << k;
            let mask = (q - 1u32) as u32;
            let lower = p & !mask;
            let tail = p & mask;
            let m = (0x80_0000u32 + p % 0x80_0000u32) as u32;
            &&& 2u32 <= q <= 0x80_0000u32
            &&& (q >> 1u32) * 2u32 == q
            &&& lower + tail == p
            &&& tail < q
            &&& (m >> k) << k == 0x80_0000u32 + lower % 0x80_0000u32
            &&& lower / 0x80_0000u32 == p / 0x80_0000u32
            &&& lower % 0x80_0000u32 + q <= 0x80_0000u32
        }),
{
}

/// The arithmetic of the middle range: a significand `s` that splits
/// into `d * q + tail` on a scale `unit`, where one is `q * unit`.
proof fn lemma_middle_split(s: int, d: int, q: int, tail: int, unit: int)
    by (nonlinear_arith)
    requires
        s == d * q + tail,
        0 <= tail < q,
        unit > 0,
    ensures
        s * unit == d * (q * unit) + tail * unit,
        0 <= tail * unit < q * unit,
        (d * q) * unit == d * (q * unit),
        (tail != 0) == (tail * unit != 0),
        (2 * tail >= q) == (2 * (tail * unit) >= q * unit),
        (d * q + q) * unit == d * (q * unit) + q * unit,
{
}

/// The fields of the two whole numbers of the middle range.
proof fn lemma_grid_middle_fields(p: u32, k: u32, lower: u32, upper: u32)
    requires
        1 <= k <= 23,
        p / 0x80_0000 == 150 - k,
        lower == p & !(((1u32 << k) - 1) as u32),
        upper == lower + (1u32 << k),
    ensures
        ({
            let q = (1u32 << k) as int;
            let tail = (p & (((1u32 << k) - 1) as u32)) as int;
            let s = 0x80_0000 + p % 0x80_0000;
            let d = s / q;
            &&& q == pow2(k as nat)
            &&& 0 <= tail < q
            &&& s == d * q + tail
            &&& exponent_of(lower) == 150 - k
            &&& significand(lower) == d * q
            &&& exponent_of(upper) < 255
            &&& !sign_of(upper)
            &&& !sign_of(lower)
            &&& {
                ||| (exponent_of(upper) == 150 - k && significand(upper) == d * q + q)
                ||| (exponent_of(upper) == 151 - k && significand(upper) == 0x80_0000 && d * q + q
                    == 0x100_0000)
            }
        }),
{
    lemma_grid_middle_bits(p, k);
    lemma_u32_pow2_no_overflow(k as nat);
    lemma_u32_shl_is_mul(1, k);
    let q = (1u32 << k) as int;
    let fl = (lower % 0x80_0000) as int;
    let m = (0x80_0000 + p % 0x80_0000) as u32;
    let d = m as int / q;
    // The shifts that clear the low bits are a division and a
    // multiplication by 2^k.
    assert((m >> k) << k == d * q) by {
        lemma_u32_shr_is_div(m, k);
        lemma_fundamental_div_mod(m as int, q);
        lemma_mod_bound(m as int, q);
        assert(q * d == d * q) by (nonlinear_arith);
        lemma_u32_shl_is_mul(m >> k, k);
    }
    assert(lower == (150 - k) * 0x80_0000 + fl);
    if fl + q < 0x80_0000 {
        assert(upper / 0x80_0000 == 150 - k);
        assert(upper % 0x80_0000 == fl + q);
    } else {
        assert(upper == (151 - k) * 0x80_0000);
        assert(upper / 0x80_0000 == 151 - k);
        assert(upper % 0x80_0000 == 0);
    }
}

/// In the middle range the whole part is the significand with its low
/// `k` bits cleared, and the next whole number is one step of `2^k`
/// further on in the pattern, whether or not that carries into the
/// exponent.
proof fn lemma_grid_middle(bits: u32, g: Grid)
    requires
        127 <= exponent_of(bits) < 150,
        ({
            let p = (bits % 0x8000_0000) as u32;
            let k = (150 - exponent_of(bits)) as u32;
            let q = 1u32 << k;
            let mask = (q - 1) as u32;
            &&& g.lower == p & !mask
            &&& g.upper == (p & !mask) + q
            &&& g.inexact == (p & mask != 0)
            &&& g.half_or_more == ((p & mask) >= (q >> 1u32))
        }),
    ensures
        is_grid_of(bits, g),
{
    let e = exponent_of(bits);
    let p = (bits % 0x8000_0000) as u32;
    let k = (150 - e) as u32;
    let q = (1u32 << k) as int;
    let tail = (p & (((1u32 << k) - 1) as u32)) as int;
    let s = significand(bits) as int;
    let d = s / q;
    let unit = pow2((e - 1) as nat) as int;
    let u = one() as int;
    let m = magnitude(bits) as int;
    assert(p / 0x80_0000 == 150 - k);
    assert(s == 0x80_0000 + p % 0x80_0000);
    lemma_grid_middle_fields(p, k, g.lower, g.upper);
    assert((1u32 << k) >> 1u32 == (1u32 << k) / 2 && (1u32 << k) % 2 == 0) by {
        lemma_grid_middle_bits(p, k);
    }
    lemma_pow2_pos((e - 1) as nat);
    lemma_pow2_adds(k as nat, (e - 1) as nat);
    assert(u == q * unit);
    lemma_middle_split(s, d, q, tail, unit);
    lemma_quotient(m, u, d, tail * unit);
    assert(magnitude(g.lower) == (d * q) * unit);
    if g.inexact {
        if exponent_of(g.upper) == e {
            assert(magnitude(g.upper) == (d * q + q) * unit);
        } else {
            lemma_pow2_unfold(e);
            assert(magnitude(g.upper) == 0x80_0000 * (2 * unit));
            assert(0x80_0000 * (2 * unit) == 0x100_0000 * unit) by (nonlinear_arith);
        }
    }
}

/// Finds the whole numbers around `|x|`.
fn grid(bits: u32) -> (g: Grid)
    ensures
        is_finite(bits) ==> is_grid_of(bits, g),
        g.lower < 0x8000_0000,
        g.upper < 0x8000_0000,
        exponent_of(bits) >= 150 ==> g.lower == bits % 0x8000_0000 && !g.inexact
            && !g.half_or_more,
{
    let p: u32 = bits & !SIGN_MASK;
    let e: u32 = extract_exponent_bits(bits);
    proof {
        lemma_field_masks(bits);
    }
    if e < 127 {
        proof {
            lemma_below_one(bits);
            lemma_magnitude_zero(bits);
            lemma_magnitude_zero(0);
            lemma_magnitude_of_one();
            lemma_pow2_pos(149);
        }
        let g = Grid { lower: 0, upper: ONE_BITS, inexact: p != 0, half_or_more: e == 126 };
        assert(is_grid_of(bits, g));
        g
    } else if e >= 150 {
        proof {
            if e < 255 {
                lemma_grid_large(bits);
                lemma_pow2_pos(149);
                assert(exponent_of(p) == exponent_of(bits));
                assert(mantissa_of(p) == mantissa_of(bits));
            }
        }
        let g = Grid { lower: p, upper: p, inexact: false, half_or_more: false };
        assert(is_finite(bits) ==> is_grid_of(bits, g));
        g
    } else {
        let k: u32 = 150 - e;
        proof {
            lemma_grid_middle_bits(p, k);
        }
        let q: u32 = 1u32 << k;
        let mask: u32 = q - 1;
        let tail: u32 = p & mask;
        let lower: u32 = p & !mask;
        let g = Grid { lower, upper: lower + q, inexact: tail != 0, half_or_more: tail >= (q >> 1) };
        proof {
            lemma_grid_middle(bits, g);
        }
        g
    }
}

/// Adding one half before dividing rounds the quotient up exactly when
/// the remainder is at least one half.
proof fn lemma_round_quotient(m: int, u: int, h: int)
    requires
        0 <= m,
        h > 0,
        u == 2 * h,
    ensures
        ((m + h) / u) * u == if 2 * (m % u) >= u {
            (m / u) * u + u
        } else {
            (m / u) * u
        },
{
    let d = m / u;
    let r = m % u;
    lemma_fundamental_div_mod(m, u);
    lemma_mod_bound(m, u);
    assert(u * d == d * u) by (nonlinear_arith);
    if 2 * r >= u {
        assert((d + 1) * u == d * u + u) by (nonlinear_arith);
        lemma_quotient(m + h, u, d + 1, r - h);
    } else {
        lemma_quotient(m + h, u, d, r + h);
    }
}

/// Dividing the negated size rounds away from zero: the quotient of
/// `-m` is one further down unless `m` is a multiple of `u`.
proof fn lemma_negative_quotient(m: int, u: int)
    requires
        0 <= m,
        u > 0,
    ensures
        ((-m) / u) * u == if m % u == 0 {
            -((m / u) * u)
        } else {
            -((m / u) * u + u)
        },
{
    let d = m / u;
    let r = m % u;
    lemma_fundamental_div_mod(m, u);
    lemma_mod_bound(m, u);
    assert(u * d == d * u) by (nonlinear_arith);
    if r == 0 {
        assert((-d) * u == -(d * u)) by (nonlinear_arith);
        lemma_quotient(-m, u, -d, 0);
    } else {
        assert((-d - 1) * u == -(d * u + u)) by (nonlinear_arith);
        lemma_quotient(-m, u, -d - 1, u - r);
    }
}

/// The whole part of `x`: rounds toward zero.
///
/// `trunc(-1.5)` is `-1.0`, and a number below one in size gives a zero
/// with the sign of `x`.
pub fn trunc(bits: u32) -> (r: u32)
    ensures
        is_trunc(bits, r),
{
    let g = grid(bits);
    copysign(g.lower, bits)
}

/// The nearest whole number, with ties going away from zero:
/// `round(2.5)` is `3.0` and `round(-2.5)` is `-3.0`.
pub fn round(bits: u32) -> (r: u32)
    ensures
        is_round(bits, r),
{
    let g = grid(bits);
    proof {
        lemma_one_is_two_halves();
        lemma_round_quotient(magnitude(bits) as int, one() as int, half() as int);
    }
    if g.half_or_more {
        copysign(g.upper, bits)
    } else {
        copysign(g.lower, bits)
    }
}

/// The largest whole number that is not above `x`: rounds toward
/// negative infinity.  `floor(-1.5)` is `-2.0`; `floor(-0.0)` is `-0.0`.
pub fn floor(bits: u32) -> (r: u32)
    ensures
        is_floor(bits, r),
{
    let g = grid(bits);
    proof {
        lemma_pow2_pos(149);
        lemma_negative_quotient(magnitude(bits) as int, one() as int);
    }
    if extract_sign_bit(bits) && g.inexact {
        copysign(g.upper, bits)
    } else {
        copysign(g.lower, bits)
    }
}

/// The smallest whole number that is not below `x`: rounds toward
/// positive infinity.  `ceil(1.5)` is `2.0`; `ceil(-0.5)` is `-0.0`.
pub fn ceil(bits: u32) -> (r: u32)
    ensures
        is_ceil(bits, r),
{
    let mirrored = floor(negate(bits));
    proof {
        let q = (-value(bits)) / (one() as int);
        let u = one() as int;
        assert(-(q * u) == (-q) * u) by (nonlinear_arith);
        lemma_pack_of_fields(bits);
    }
    negate(mirrored)
}

/// In the middle range the fractional part is what the low `k`
/// mantissa bits hold, on the scale of the number itself.
proof fn lemma_middle_remainder(bits: u32, tail: u32)
    requires
        127 <= exponent_of(bits) < 150,
        tail == ((bits % 0x8000_0000) as u32) & (((1u32 << ((150 - exponent_of(bits)) as u32))
            - 1) as u32),
    ensures
        magnitude(bits) % one() == tail * pow2((exponent_of(bits) - 1) as nat),
        tail < 0x80_0000,
{
    let e = exponent_of(bits);
    let p = (bits % 0x8000_0000) as u32;
    let k = (150 - e) as u32;
    let q = (1u32 << k) as int;
    let s = significand(bits) as int;
    let unit = pow2((e - 1) as nat) as int;
    assert(p / 0x80_0000 == 150 - k);
    assert(s == 0x80_0000 + p % 0x80_0000);
    let lower = p & !(((1u32 << k) - 1) as u32);
    lemma_grid_middle_bits(p, k);
    lemma_grid_middle_fields(p, k, lower, (lower + (1u32 << k)) as u32);
    lemma_pow2_pos((e - 1) as nat);
    lemma_pow2_adds(k as nat, (e - 1) as nat);
    lemma_middle_split(s, s / q, q, tail as int, unit);
    lemma_quotient(magnitude(bits) as int, one() as int, s / q, tail * unit);
}

/// The fractional part of `x`: what `trunc` takes away, so that
/// `trunc(x) + fract(x)` is `x`.
///
/// The result has the sign of `x`, except that a fractional part of
/// zero is always `+0.0`: `fract(-1.5)` is `-0.5` and `fract(-2.0)` is
/// `+0.0`.  An infinity has no fractional part; the result is then the
/// quiet NaN `0x7fc0_0000`.
pub fn fract(bits: u32) -> (r: u32)
    ensures
        is_fract(bits, r),
{
    let e: u32 = extract_exponent_bits(bits);
    let p: u32 = bits & !SIGN_MASK;
    proof {
        lemma_field_masks(bits);
        lemma_magnitude_zero(0);
        lemma_magnitude_zero(bits);
    }
    if e < 127 {
        proof {
            lemma_below_one(bits);
        }
        if p == 0 {
            0
        } else {
            bits
        }
    } else if e == 255 {
        if extract_mantissa_bits(bits) != 0 {
            bits
        } else {
            QUIET_NAN_BITS
        }
    } else if e >= 150 {
        proof {
            lemma_grid_large(bits);
        }
        0
    } else {
        let k: u32 = 150 - e;
        proof {
            lemma_grid_middle_bits(p, k);
        }
        let q: u32 = 1u32 << k;
        let tail: u32 = p & (q - 1);
        proof {
            lemma_middle_remainder(bits, tail);
            lemma_pow2_pos((e - 1) as nat);
            assert((tail == 0) == (tail * pow2((e - 1) as nat) == 0)) by (nonlinear_arith)
                requires
                    pow2((e - 1) as nat) > 0,
            ;
        }
        if tail == 0 {
            0
        } else {
            let (shift, shifted) = normalize(tail);
            let r = compose(extract_sign_bit(bits), e - shift, extract_mantissa_bits(shifted));
            proof {
                let unit = pow2((e - 1) as nat) as int;
                let step = pow2(shift as nat) as int;
                let rest = pow2((e - shift - 1) as nat) as int;
                lemma_pow2_adds(shift as nat, (e - shift - 1) as nat);
                lemma_fields_of_pack(sign_of(bits), (e - shift) as nat, (shifted % 0x80_0000) as nat);
                assert(significand(r) == shifted);
                assert(scale(r) == e - shift - 1);
                assert((tail * step) * rest == tail * (step * rest)) by (nonlinear_arith);
                assert(magnitude(r) == tail * unit);
            }
            r
        }
    }
}

/// The whole part and the fractional part of a finite number add up to
/// the number.
pub proof fn lemma_trunc_plus_fract(x: u32, t: u32, f: u32)
    requires
        is_finite(x),
        is_trunc(x, t),
        is_fract(x, f),
    ensures
        value(t) + value(f) == value(x),
{
    lemma_pow2_pos(149);
    lemma_fundamental_div_mod(magnitude(x) as int, one() as int);
    let d = magnitude(x) as int / one() as int;
    let u = one() as int;
    assert(u * d == d * u) by (nonlinear_arith);
}

/// A finite number lies between its floor and its ceiling, and less
/// than one away from either.
pub proof fn lemma_floor_below_ceil_above(x: u32, lo: u32, hi: u32)
    requires
        is_finite(x),
        is_floor(x, lo),
        is_ceil(x, hi),
    ensures
        value(lo) <= value(x) <= value(hi),
        value(x) - value(lo) < one(),
        value(hi) - value(x) < one(),
{
    let u = one() as int;
    lemma_pow2_pos(149);
    let v = value(x);
    lemma_fundamental_div_mod(v, u);
    lemma_mod_bound(v, u);
    lemma_fundamental_div_mod(-v, u);
    lemma_mod_bound(-v, u);
    let a = v / u;
    let b = (-v) / u;
    assert(u * a == a * u && u * b == b * u && -b * u == -(b * u)) by (nonlinear_arith);
}

/// A tie goes away from zero: when the fractional part of `|x|` is
/// exactly one half, `round` moves `|x|` up by that half, whatever the
/// sign of `x`.
pub proof fn lemma_round_tie_goes_away_from_zero(x: u32, r: u32)
    requires
        is_finite(x),
        is_round(x, r),
        magnitude(x) % one() == half(),
    ensures
        sign_of(r) == sign_of(x),
        magnitude(r) == magnitude(x) + half(),
{
    let m = magnitude(x) as int;
    let u = one() as int;
    let h = half() as int;
    lemma_one_is_two_halves();
    lemma_round_quotient(m, u, h);
    lemma_fundamental_div_mod(m, u);
    let d = m / u;
    assert(u * d == d * u) by (nonlinear_arith);
}

/// `round` never moves a finite number by more than one half.
pub proof fn lemma_round_is_nearest(x: u32, r: u32)
    requires
        is_finite(x),
        is_round(x, r),
    ensures
        magnitude(r) - magnitude(x) <= half(),
        magnitude(x) - magnitude(r) < half(),
{
    let m = magnitude(x) as int;
    let u = one() as int;
    let h = half() as int;
    lemma_one_is_two_halves();
    lemma_round_quotient(m, u, h);
    lemma_fundamental_div_mod(m, u);
    lemma_mod_bound(m, u);
    let d = m / u;
    assert(u * d == d * u) by (nonlinear_arith);
}

/// Each of the five contracts admits one result only.
pub proof fn lemma_results_are_determined(x: u32, a: u32, b: u32)
    ensures
        is_trunc(x, a) && is_trunc(x, b) ==> a == b,
        is_round(x, a) && is_round(x, b) ==> a == b,
        is_floor(x, a) && is_floor(x, b) ==> a == b,
        is_ceil(x, a) && is_ceil(x, b) ==> a == b,
        is_fract(x, a) && is_fract(x, b) ==> a == b,
{
    if sign_of(a) == sign_of(b) && magnitude(a) == magnitude(b) {
        lemma_sign_and_magnitude_determine_bits(a, b);
    }
}

} // verus!
