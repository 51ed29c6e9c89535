//! The approximations as a caller puts them together: the kernel does
//! the work on the bit patterns, and the floating-point arithmetic
//! around it is written out here, so that the kernel functions are run
//! the way they are used.  The bounds are checked against `std` in
//! double precision.

use core::f32::consts::{FRAC_1_PI, FRAC_2_PI, FRAC_PI_2, LN_10, LN_2, LOG2_E, PI};

use f32ext::arctan::{atan2_plan, exceeds_one, Atan2Plan};
use f32ext::logexp::{exp_reduce, ln_reduce, scale_by_pow2, ExpReduction, LnReduction};
use f32ext::rounding::floor;
use f32ext::rsqrt::invsqrt_seed;
use f32ext::sign::{abs, copysign};

/// Number of terms after the leading `1` that the series of `exp` keeps.
const EXP_SERIES_TERMS: u32 = 4;

fn abs_f32(x: f32) -> f32 {
    f32::from_bits(abs(x.to_bits()))
}

fn floor_f32(x: f32) -> f32 {
    f32::from_bits(floor(x.to_bits()))
}

/// Approximates `1/sqrt(x)`: the kernel's seed, refined once.
///
/// For `x = 0` the result is 1.5 times the seed of zero, a finite
/// number near `3e19`.  For `x < 0` the result is whatever the
/// arithmetic makes of a wrapped seed; it has no meaning.
fn invsqrt_approx(x: f32) -> f32 {
    let y = f32::from_bits(invsqrt_seed(x.to_bits()));
    y * (1.5 - 0.5 * x * y * y)
}

/// Approximates `sqrt(x)` as `x * invsqrt(x)`; `sqrt(0)` is `0`.
/// For `x < 0` the result has no meaning.
fn sqrt_approx(x: f32) -> f32 {
    x * invsqrt_approx(x)
}

/// Approximates `1/x` as `invsqrt(x)` squared, for `x > 0`; `inv(0)`
/// overflows to `+inf`.  For `x < 0` the result has no meaning.
fn inv_approx(x: f32) -> f32 {
    let y = invsqrt_approx(x);
    y * y
}

/// Approximates `cos(x)` in radians with a maximum error of `0.002`.
///
/// The argument is first brought to turns and reduced to
/// `[-0.5, 0.5)` with the kernel's `floor`; a parabola with one
/// correction term does the rest.
fn cos_approx(x: f32) -> f32 {
    let mut t = x * (FRAC_1_PI / 2.0);
    t -= 0.25 + floor_f32(t + 0.25);
    t *= 16.0 * (abs_f32(t) - 0.5);
    t += 0.225 * t * (abs_f32(t) - 1.0);
    t
}

/// Approximates `sin(x)` in radians with a maximum error of `0.06`.
fn sin_approx(x: f32) -> f32 {
    cos_approx(x - PI / 2.0)
}

/// Approximates `tan(x)` in radians as `sin(x) / cos(x)`.
///
/// Nothing guards the poles: where the cosine comes out as zero the
/// division gives an infinity, or NaN if the sine is zero too.
fn tan_approx(x: f32) -> f32 {
    sin_approx(x) / cos_approx(x)
}

/// `atan(x)` in radians for `x` in `[-1, 1]`, with a maximum error of
/// `0.0002`: a ratio of an odd cubic and an even quadratic.
fn atan_unit(x: f32) -> f32 {
    const A: f32 = 0.200_849_86;
    const B: f32 = 0.528_648_7;
    let xx = x * x;
    x * (1.0 + A * xx) / (1.0 + B * xx)
}

/// Approximates `atan(x)` in radians with a maximum error of `0.002`.
///
/// For `|x| > 1` the argument is folded into `[-1, 1]`:
/// `atan(x) = +-pi/2 - atan(1/x)`, with the sign of `x`.
fn atan_approx(x: f32) -> f32 {
    if exceeds_one(x.to_bits()) {
        let quarter = f32::from_bits(copysign(FRAC_PI_2.to_bits(), x.to_bits()));
        quarter - atan_unit(1.0 / x)
    } else {
        atan_unit(x)
    }
}

/// Approximates `atan(x)` normalized to the `[-1,1]` range, so that a
/// quarter turn is `1`, with a maximum error of `0.1620` degrees.
fn atan_norm_approx(x: f32) -> f32 {
    FRAC_2_PI * atan_approx(x)
}

/// Approximates the four quadrant arctangent in radians, in
/// `[-pi, pi]`, with a maximum error of `0.002`.
///
/// At the origin the angle is taken to be zero.
fn atan2_approx(y: f32, x: f32) -> f32 {
    match atan2_plan(y.to_bits(), x.to_bits()) {
        Atan2Plan::NotANumber => f32::NAN,
        Atan2Plan::Origin => 0.0,
        Atan2Plan::Angle { swap: false, quarter_turns } => {
            quarter_turns as f32 * FRAC_PI_2 + atan_unit(y / x)
        }
        Atan2Plan::Angle { swap: true, quarter_turns } => {
            quarter_turns as f32 * FRAC_PI_2 - atan_unit(x / y)
        }
    }
}

/// Approximates the four quadrant arctangent in quarter turns,
/// normalized to `[0,4)`: angles below zero are moved up by a full turn.
fn atan2_norm_approx(y: f32, x: f32) -> f32 {
    let n = FRAC_2_PI * atan2_approx(y, x);
    let wrapped = if n < 0.0 { n + 4.0 } else { n };
    // an angle just below zero rounds up to the full turn, which is zero
    if wrapped >= 4.0 {
        0.0
    } else {
        wrapped
    }
}

/// Approximates `ln(x)`.
///
/// `ln(0)` is `-inf`, `ln(x)` for `x < 0` is NaN, `ln(+inf)` is `+inf`.
fn ln_1to2_series_approximation(x: f32) -> f32 {
    match ln_reduce(x.to_bits()) {
        LnReduction::NotANumber => f32::NAN,
        LnReduction::NegativeInfinity => f32::NEG_INFINITY,
        LnReduction::PositiveInfinity => f32::INFINITY,
        LnReduction::Reduced { mantissa, exponent } => {
            let m = f32::from_bits(mantissa);
            let ln_m = -1.741_793_9_f32
                + (2.821_202_6_f32
                    + (-1.469_956_8_f32 + (0.447_179_55_f32 - 0.056_570_85_f32 * m) * m) * m)
                    * m;
            (exponent as f32) * LN_2 + ln_m
        }
    }
}

/// `exp(r)` for a small `r`, from the first `terms` terms of its series
/// after the leading one.
fn exp_smallx(r: f32, terms: u32) -> f32 {
    let mut total = 1.0f32;
    let mut i = terms;
    while i > 0 {
        total = 1.0 + (r / i as f32) * total;
        i -= 1;
    }
    total
}

/// Approximates `e^x`.
///
/// Results beyond the largest finite number are `+inf`; results below
/// the smallest normal number are `0`.
fn exp_ln2_approximation(x: f32, terms: u32) -> f32 {
    match exp_reduce((x * LOG2_E).to_bits()) {
        ExpReduction::NotANumber => f32::NAN,
        ExpReduction::Overflow => f32::INFINITY,
        ExpReduction::Underflow => 0.0,
        ExpReduction::Multiple { k } => {
            let r = x - k as f32 * LN_2;
            f32::from_bits(scale_by_pow2(exp_smallx(r, terms).to_bits(), k))
        }
    }
}

/// Approximates the logarithm of `x` to the base `base`.
fn log_ln_approx(x: f32, base: f32) -> f32 {
    ln_1to2_series_approximation(x) / ln_1to2_series_approximation(base)
}

/// Approximates `log2(x)`.
fn log2_ln_approx(x: f32) -> f32 {
    ln_1to2_series_approximation(x) / LN_2
}

/// Approximates `log10(x)`.
fn log10_ln_approx(x: f32) -> f32 {
    ln_1to2_series_approximation(x) / LN_10
}

/// Approximates `x^n` as `exp(n * ln(x))`.
///
/// For `x < 0` the logarithm is NaN and so is the power; for `x = 0`
/// the logarithm is `-inf`, which gives `0` for `n > 0`, `+inf` for
/// `n < 0` and NaN for `n = 0`.
fn powf_exp_ln_approx(x: f32, n: f32) -> f32 {
    exp_ln2_approximation(n * ln_1to2_series_approximation(x), EXP_SERIES_TERMS)
}

/// Maximum error of the sine, in radians.
const MAX_ERROR: f32 = 0.06;

/// Sine test vectors - `(input, output)`
const TEST_VECTORS: &[(f32, f32)] = &[
    (0.000, 0.000),
    (0.140, 0.139),
    (0.279, 0.276),
    (0.419, 0.407),
    (0.559, 0.530),
    (0.698, 0.643),
    (0.838, 0.743),
    (0.977, 0.829),
    (1.117, 0.899),
    (1.257, 0.951),
    (1.396, 0.985),
    (1.536, 0.999),
    (1.676, 0.995),
    (1.815, 0.970),
    (1.955, 0.927),
    (2.094, 0.866),
    (2.234, 0.788),
    (2.374, 0.695),
    (2.513, 0.588),
    (2.653, 0.469),
    (2.793, 0.342),
    (2.932, 0.208),
    (3.072, 0.070),
    (3.211, -0.070),
    (3.351, -0.208),
    (3.491, -0.342),
    (3.630, -0.469),
    (3.770, -0.588),
    (3.910, -0.695),
    (4.049, -0.788),
    (4.189, -0.866),
    (4.328, -0.927),
    (4.468, -0.970),
    (4.608, -0.995),
    (4.747, -0.999),
    (4.887, -0.985),
    (5.027, -0.951),
    (5.166, -0.899),
    (5.306, -0.829),
    (5.445, -0.743),
    (5.585, -0.643),
    (5.725, -0.530),
    (5.864, -0.407),
    (6.004, -0.276),
    (6.144, -0.139),
    (6.283, 0.000),
];

#[test]
fn sanity_check() {
    for (x, expected) in TEST_VECTORS {
        let sin_x = sin_approx(*x);
        let delta = abs_f32(sin_x - expected);

        assert!(
            delta <= MAX_ERROR,
            "delta {} too large: {} vs {}",
            delta,
            sin_x,
            expected
        );
    }
}

#[test]
fn sine_at_multiples_of_pi() {
    assert!(sin_approx(0.0).abs() <= 0.002);
    assert!(sin_approx(PI).abs() <= 0.002);
    assert!(sin_approx(2.0 * PI).abs() <= 0.002);
    assert!((sin_approx(0.698) - 0.643).abs() <= MAX_ERROR);
    assert!((sin_approx(3.491) + 0.342).abs() <= MAX_ERROR);
    assert!((sin_approx(FRAC_PI_2) - 1.0).abs() <= 0.002);
}

#[test]
fn cosine_and_sine_are_within_bound() {
    let mut i = -200_000;
    while i <= 200_000 {
        let x = i as f32 * 0.0001;
        let c = cos_approx(x) as f64;
        let s = sin_approx(x) as f64;
        assert!((c - (x as f64).cos()).abs() <= 0.002, "cos({})", x);
        assert!((s - (x as f64).sin()).abs() <= 0.002, "sin({})", x);
        assert!((s * s + c * c - 1.0).abs() <= 0.004, "at {}", x);
        i += 1;
    }
}

#[test]
fn tangent_is_within_bound_away_from_the_poles() {
    let mut i = -13_000;
    while i <= 13_000 {
        let x = i as f32 * 0.0001;
        assert!((tan_approx(x) as f64 - (x as f64).tan()).abs() <= 0.6, "tan({})", x);
        i += 1;
    }
}

#[test]
fn arctangent_is_within_bound() {
    let mut i = -100_000;
    while i <= 100_000 {
        for x in [i as f32 * 0.000_01, i as f32 * 0.01] {
            let exact = (x as f64).atan();
            assert!((atan_approx(x) as f64 - exact).abs() <= 0.002, "atan({})", x);
            let degrees = (atan_norm_approx(x) as f64 - exact / std::f64::consts::FRAC_PI_2) * 90.0;
            assert!(degrees.abs() <= 0.1620, "atan_norm({})", x);
        }
        i += 1;
    }
    assert_eq!(atan_approx(0.0), 0.0);
    assert!((atan_approx(f32::INFINITY) - FRAC_PI_2).abs() <= 0.002);
    assert!((atan_approx(f32::NEG_INFINITY) + FRAC_PI_2).abs() <= 0.002);
    assert!(atan_approx(f32::NAN).is_nan());
    assert!((atan_norm_approx(1.0) - 0.5).abs() <= 0.002);
    assert!((atan_norm_approx(-1.0e9) + 1.0).abs() <= 0.002);
}

#[test]
fn arctangent_undoes_tangent_on_the_principal_branch() {
    let mut i = -15_000;
    while i <= 15_000 {
        let x = i as f32 * 0.0001;
        assert!((atan_approx(tan_approx(x)) - x).abs() <= 0.004, "at {}", x);
        i += 1;
    }
}

#[test]
fn two_argument_arctangent_is_within_bound() {
    let mut a = 0;
    while a < 36_000 {
        let angle = (a as f64) * std::f64::consts::PI / 18_000.0 - std::f64::consts::PI;
        for radius in [0.001f64, 1.0, 1234.5] {
            let (y, x) = ((radius * angle.sin()) as f32, (radius * angle.cos()) as f32);
            let exact = (y as f64).atan2(x as f64);
            assert!((atan2_approx(y, x) as f64 - exact).abs() <= 0.002, "atan2({}, {})", y, x);
            let n = atan2_norm_approx(y, x);
            assert!(0.0 <= n && n < 4.0, "atan2_norm({}, {}) = {}", y, x, n);
            let turns = exact / std::f64::consts::FRAC_PI_2;
            let expected = if turns < 0.0 { turns + 4.0 } else { turns };
            let off = (n as f64 - expected).abs();
            assert!(off.min(4.0 - off) * 90.0 <= 0.1620, "atan2_norm({}, {})", y, x);
        }
        a += 1;
    }
}

#[test]
fn two_argument_arctangent_on_the_axes() {
    assert_eq!(atan2_approx(0.0, 0.0), 0.0);
    assert_eq!(atan2_approx(-0.0, -0.0), 0.0);
    assert_eq!(atan2_approx(0.0, 1.0), 0.0);
    assert_eq!(atan2_approx(1.0, 0.0), FRAC_PI_2);
    assert_eq!(atan2_approx(-1.0, 0.0), -FRAC_PI_2);
    assert_eq!(atan2_approx(0.0, -1.0), PI);
    assert_eq!(atan2_approx(-0.0, -1.0), -PI);
    assert!(atan2_approx(f32::NAN, 1.0).is_nan());
    assert!(atan2_approx(1.0, f32::NAN).is_nan());
    assert_eq!(atan2_norm_approx(0.0, 1.0), 0.0);
    assert_eq!(atan2_norm_approx(1.0, 0.0), 1.0);
    assert_eq!(atan2_norm_approx(0.0, -1.0), 2.0);
    assert_eq!(atan2_norm_approx(-1.0, 0.0), 3.0);
    assert_eq!(atan2_norm_approx(-1.0e-30, 1.0), 0.0);
}

#[test]
fn inverse_square_root_family_is_within_bound() {
    let mut bits = 0x0100_0000u32;
    while bits < 0x7e80_0000 {
        let x = f32::from_bits(bits);
        let exact = 1.0 / (x as f64).sqrt();
        assert!(((invsqrt_approx(x) as f64 - exact) / exact).abs() <= 0.05, "invsqrt({})", x);
        let exact = (x as f64).sqrt();
        assert!(((sqrt_approx(x) as f64 - exact) / exact).abs() <= 0.05, "sqrt({})", x);
        let exact = 1.0 / (x as f64);
        assert!(((inv_approx(x) as f64 - exact) / exact).abs() <= 0.08, "inv({})", x);
        bits += 0x0000_0fff;
    }
    assert!((invsqrt_approx(4.0) - 0.5).abs() <= 0.001);
    assert!((sqrt_approx(4.0) - 2.0).abs() <= 0.004);
    assert!((inv_approx(4.0) - 0.25).abs() <= 0.001);
}

#[test]
fn inverse_square_root_family_at_and_below_zero() {
    // at zero: 1.5 times the seed of zero, a large finite number
    let seed = f32::from_bits(0x5f37_59df);
    assert_eq!(invsqrt_approx(0.0), 1.5 * seed);
    assert!(invsqrt_approx(0.0).is_finite());
    assert_eq!(sqrt_approx(0.0), 0.0);
    assert_eq!(inv_approx(0.0), f32::INFINITY);
    // below zero: fixed results without meaning
    assert_eq!(invsqrt_approx(-1.0), f32::NEG_INFINITY);
    assert_eq!(sqrt_approx(-1.0), f32::INFINITY);
    assert_eq!(inv_approx(-1.0), f32::INFINITY);
}

#[test]
fn logarithm_is_within_bound() {
    let mut bits = 0x0000_0001u32;
    while bits < 0x7f80_0000 {
        let x = f32::from_bits(bits);
        let exact = (x as f64).ln();
        assert!((ln_1to2_series_approximation(x) as f64 - exact).abs() <= 0.0001, "ln({})", x);
        assert!((log2_ln_approx(x) as f64 - (x as f64).log2()).abs() <= 0.0002, "log2({})", x);
        assert!((log10_ln_approx(x) as f64 - (x as f64).log10()).abs() <= 0.0001, "log10({})", x);
        bits += 0x0000_0fff;
    }
    assert!((log_ln_approx(81.0, 3.0) - 4.0).abs() <= 0.001);
    assert!((log_ln_approx(0.125, 2.0) + 3.0).abs() <= 0.001);
    assert!(ln_1to2_series_approximation(1.0).abs() <= 0.0001);
}

#[test]
fn logarithm_outside_the_domain() {
    assert_eq!(ln_1to2_series_approximation(0.0), f32::NEG_INFINITY);
    assert_eq!(ln_1to2_series_approximation(-0.0), f32::NEG_INFINITY);
    assert!(ln_1to2_series_approximation(-1.0).is_nan());
    assert!(ln_1to2_series_approximation(f32::NEG_INFINITY).is_nan());
    assert!(ln_1to2_series_approximation(f32::NAN).is_nan());
    assert_eq!(ln_1to2_series_approximation(f32::INFINITY), f32::INFINITY);
    assert_eq!(log2_ln_approx(0.0), f32::NEG_INFINITY);
    assert!(log10_ln_approx(-5.0).is_nan());
    assert!(log_ln_approx(-5.0, 2.0).is_nan());
    assert!(powf_exp_ln_approx(-2.0, 0.5).is_nan());
    assert_eq!(powf_exp_ln_approx(0.0, 2.0), 0.0);
    assert_eq!(powf_exp_ln_approx(0.0, -2.0), f32::INFINITY);
}

#[test]
fn exponential_is_within_bound() {
    let mut i = -870_000;
    while i <= 880_000 {
        let x = i as f32 * 0.0001;
        let exact = (x as f64).exp();
        let got = exp_ln2_approximation(x, EXP_SERIES_TERMS) as f64;
        assert!(((got - exact) / exact).abs() <= 0.0001, "exp({})", x);
        i += 7;
    }
    assert_eq!(exp_ln2_approximation(0.0, EXP_SERIES_TERMS), 1.0);
    assert_eq!(exp_ln2_approximation(89.0, EXP_SERIES_TERMS), f32::INFINITY);
    assert_eq!(exp_ln2_approximation(f32::INFINITY, EXP_SERIES_TERMS), f32::INFINITY);
    assert_eq!(exp_ln2_approximation(-88.0, EXP_SERIES_TERMS), 0.0);
    assert_eq!(exp_ln2_approximation(f32::NEG_INFINITY, EXP_SERIES_TERMS), 0.0);
    assert!(exp_ln2_approximation(f32::NAN, EXP_SERIES_TERMS).is_nan());
}

#[test]
fn exponential_gains_from_more_terms() {
    let x = 0.3f32;
    let exact = (x as f64).exp();
    let mut previous = f64::INFINITY;
    for terms in 1..=4u32 {
        let error = (exp_ln2_approximation(x, terms) as f64 - exact).abs();
        assert!(error < previous);
        previous = error;
    }
}

#[test]
fn logarithm_and_exponential_rise() {
    let mut previous = f32::NEG_INFINITY;
    let mut bits = 0x0000_0001u32;
    while bits < 0x7f80_0000 {
        let v = ln_1to2_series_approximation(f32::from_bits(bits));
        assert!(v > previous, "ln at {:#x}", bits);
        previous = v;
        bits += 0x0000_0fff;
    }
    previous = -1.0;
    let mut i = -870_000;
    while i <= 880_000 {
        let v = exp_ln2_approximation(i as f32 * 0.0001, EXP_SERIES_TERMS);
        assert!(v > previous, "exp at {}", i);
        previous = v;
        i += 7;
    }
}

#[test]
fn exponential_undoes_logarithm() {
    let mut bits = 0x0080_0000u32;
    while bits < 0x7f00_0000 {
        let x = f32::from_bits(bits);
        let back = exp_ln2_approximation(ln_1to2_series_approximation(x), EXP_SERIES_TERMS);
        assert!(((back - x) / x).abs() <= 0.0002, "at {}", x);
        bits += 0x0000_0fff;
    }
}

#[test]
fn powers_of_known_numbers() {
    assert!((powf_exp_ln_approx(2.0, 10.0) - 1024.0).abs() <= 1.0);
    assert!((powf_exp_ln_approx(9.0, 0.5) - 3.0).abs() <= 0.001);
    assert!((powf_exp_ln_approx(10.0, -2.0) - 0.01).abs() <= 0.000_01);
    assert!((powf_exp_ln_approx(1.0, 123.0) - 1.0).abs() <= 0.01);
}
