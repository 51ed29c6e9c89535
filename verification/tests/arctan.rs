use f32ext::arctan::{atan2_plan, exceeds_one, is_smaller, Atan2Plan};

fn mix(state: &mut u32) -> u32 {
    let mut x = *state;
    x ^= x << 13;
    x ^= x >> 17;
    x ^= x << 5;
    *state = x;
    x
}

fn plan(y: f32, x: f32) -> Atan2Plan {
    atan2_plan(y.to_bits(), x.to_bits())
}

#[test]
fn is_smaller_compares_sizes() {
    assert!(is_smaller(1.0f32.to_bits(), 2.0f32.to_bits()));
    assert!(is_smaller(1.0f32.to_bits(), (-2.0f32).to_bits()));
    assert!(is_smaller((-1.0f32).to_bits(), 2.0f32.to_bits()));
    assert!(!is_smaller(2.0f32.to_bits(), 1.0f32.to_bits()));
    assert!(!is_smaller(2.0f32.to_bits(), (-2.0f32).to_bits()));
    assert!(!is_smaller(0, 0x8000_0000));
    assert!(is_smaller(0, 1));
    assert!(is_smaller(f32::MAX.to_bits(), f32::NEG_INFINITY.to_bits()));
    let mut state = 0x0f0f_1234u32;
    for _ in 0..200_000 {
        let a = mix(&mut state);
        let b = mix(&mut state);
        let (fa, fb) = (f32::from_bits(a), f32::from_bits(b));
        if fa.is_nan() || fb.is_nan() {
            continue;
        }
        assert_eq!(is_smaller(a, b), fa.abs() < fb.abs());
    }
}

#[test]
fn exceeds_one_is_strict() {
    assert!(!exceeds_one(1.0f32.to_bits()));
    assert!(!exceeds_one((-1.0f32).to_bits()));
    assert!(exceeds_one(0x3f80_0001));
    assert!(exceeds_one(0xbf80_0001));
    assert!(!exceeds_one(0x3f7f_ffff));
    assert!(!exceeds_one(0));
    assert!(exceeds_one(f32::INFINITY.to_bits()));
    assert!(exceeds_one((-1.0e10f32).to_bits()));
    assert!(!exceeds_one(1.0e-10f32.to_bits()));
}

#[test]
fn plan_for_the_eight_directions() {
    assert_eq!(plan(0.0, 1.0), Atan2Plan::Angle { swap: false, quarter_turns: 0 });
    assert_eq!(plan(1.0, 2.0), Atan2Plan::Angle { swap: false, quarter_turns: 0 });
    assert_eq!(plan(1.0, 1.0), Atan2Plan::Angle { swap: false, quarter_turns: 0 });
    assert_eq!(plan(2.0, 1.0), Atan2Plan::Angle { swap: true, quarter_turns: 1 });
    assert_eq!(plan(1.0, 0.0), Atan2Plan::Angle { swap: true, quarter_turns: 1 });
    assert_eq!(plan(2.0, -1.0), Atan2Plan::Angle { swap: true, quarter_turns: 1 });
    assert_eq!(plan(1.0, -2.0), Atan2Plan::Angle { swap: false, quarter_turns: 2 });
    assert_eq!(plan(0.0, -1.0), Atan2Plan::Angle { swap: false, quarter_turns: 2 });
    assert_eq!(plan(-0.0, -1.0), Atan2Plan::Angle { swap: false, quarter_turns: -2 });
    assert_eq!(plan(-1.0, -2.0), Atan2Plan::Angle { swap: false, quarter_turns: -2 });
    assert_eq!(plan(-2.0, -1.0), Atan2Plan::Angle { swap: true, quarter_turns: -1 });
    assert_eq!(plan(-1.0, 0.0), Atan2Plan::Angle { swap: true, quarter_turns: -1 });
    assert_eq!(plan(-1.0, -0.0), Atan2Plan::Angle { swap: true, quarter_turns: -1 });
    assert_eq!(plan(-2.0, 1.0), Atan2Plan::Angle { swap: true, quarter_turns: -1 });
    assert_eq!(plan(-1.0, 2.0), Atan2Plan::Angle { swap: false, quarter_turns: 0 });
}

#[test]
fn plan_at_the_origin_and_for_nans() {
    assert_eq!(plan(0.0, 0.0), Atan2Plan::Origin);
    assert_eq!(plan(-0.0, 0.0), Atan2Plan::Origin);
    assert_eq!(plan(0.0, -0.0), Atan2Plan::Origin);
    assert_eq!(plan(-0.0, -0.0), Atan2Plan::Origin);
    assert_eq!(plan(f32::NAN, 1.0), Atan2Plan::NotANumber);
    assert_eq!(plan(1.0, f32::NAN), Atan2Plan::NotANumber);
    assert_eq!(plan(f32::NAN, f32::NAN), Atan2Plan::NotANumber);
    assert_eq!(plan(0.0, f32::NAN), Atan2Plan::NotANumber);
    assert_eq!(atan2_plan(0, 0xff80_0001), Atan2Plan::NotANumber);
    assert_eq!(plan(1.0, f32::INFINITY), Atan2Plan::Angle { swap: false, quarter_turns: 0 });
    assert_eq!(plan(f32::NEG_INFINITY, 1.0), Atan2Plan::Angle { swap: true, quarter_turns: -1 });
}

#[test]
fn plan_never_divides_by_zero_and_keeps_the_ratio_small() {
    let mut state = 0x7654_3210u32;
    for _ in 0..200_000 {
        let (yb, xb) = (mix(&mut state), mix(&mut state));
        let (y, x) = (f32::from_bits(yb), f32::from_bits(xb));
        match atan2_plan(yb, xb) {
            Atan2Plan::Angle { swap, quarter_turns } => {
                let (num, den) = if swap { (x, y) } else { (y, x) };
                assert!(den != 0.0);
                assert!(num.abs() <= den.abs());
                assert!(-2 <= quarter_turns && quarter_turns <= 2);
            }
            Atan2Plan::Origin => assert!(y == 0.0 && x == 0.0),
            Atan2Plan::NotANumber => assert!(y.is_nan() || x.is_nan()),
        }
    }
}

#[test]
fn plan_with_exact_arctangent_gives_atan2() {
    let mut state = 0x0dd_ba11u32;
    let mut checked = 0;
    for _ in 0..200_000 {
        // moderate exponents, so that the ratio is neither lost nor infinite
        let yb = (mix(&mut state) & 0x807f_ffff) | ((117 + mix(&mut state) % 20) << 23);
        let xb = (mix(&mut state) & 0x807f_ffff) | ((117 + mix(&mut state) % 20) << 23);
        let (y, x) = (f32::from_bits(yb) as f64, f32::from_bits(xb) as f64);
        let quarter = std::f64::consts::FRAC_PI_2;
        let angle = match atan2_plan(yb, xb) {
            Atan2Plan::Angle { swap: false, quarter_turns } => {
                quarter_turns as f64 * quarter + (y / x).atan()
            }
            Atan2Plan::Angle { swap: true, quarter_turns } => {
                quarter_turns as f64 * quarter - (x / y).atan()
            }
            other => panic!("{:?}", other),
        };
        assert!((angle - y.atan2(x)).abs() < 1.0e-12, "{} {}", y, x);
        checked += 1;
    }
    assert_eq!(checked, 200_000);
}

#[test]
fn plan_mirrors_with_the_sign_of_y() {
    let mut state = 0x0a0b_0c0du32;
    for _ in 0..100_000 {
        let (yb, xb) = (mix(&mut state), mix(&mut state));
        let mirrored = atan2_plan(yb ^ 0x8000_0000, xb);
        match atan2_plan(yb, xb) {
            Atan2Plan::Angle { swap, quarter_turns } => {
                assert_eq!(mirrored, Atan2Plan::Angle { swap, quarter_turns: -quarter_turns });
            }
            other => assert_eq!(mirrored, other),
        }
    }
}
