//! The decisions of the arctangent: when to fold the argument into
//! `[-1, 1]`, and how the two-argument form places its angle.  They
//! depend on signs and on which of two numbers is larger in size, and
//! both can be read off the bit patterns.
//!
//! `atan(x)` approximates on `[-1, 1]`; for `|x| > 1` it uses
//! `atan(x) = +-pi/2 - atan(1/x)`, and [`exceeds_one`] says when.
//!
//! `atan2(y, x)` is `q * pi/2 + atan(y/x)` when `|x| >= |y|` and
//! `q * pi/2 - atan(x/y)` when `|x| < |y|`, so the ratio never leaves
//! `[-1, 1]` and the divisor is zero only at the origin.
//! [`atan2_plan`] picks the ratio and the number `q` of quarter turns.
use vstd::prelude::*;
use crate::layout::{
    SIGN_MASK,
    sign_of,
    exponent_of,
    mantissa_of,
    pack,
    lemma_field_masks,
    lemma_pack_of_fields,
    lemma_fields_of_pack,
};
use crate::value::{
    is_nan,
    is_zero,
    magnitude,
    one,
    lemma_magnitude_increases,
    lemma_magnitude_of_one,
    lemma_magnitude_zero,
};
use crate::rounding::ONE_BITS;

verus! {

/// Whether `a` is smaller in size than `b`: `|a| < |b|`.
pub fn is_smaller(a: u32, b: u32) -> (r: bool)
    ensures
        r == (magnitude(a) < magnitude(b)),
{
    let pa: u32 = a & !SIGN_MASK;
    let pb: u32 = b & !SIGN_MASK;
    proof {
        lemma_field_masks(a);
        lemma_field_masks(b);
        if pa < pb {
            lemma_magnitude_increases(a, b);
        } else if pb < pa {
            lemma_magnitude_increases(b, a);
        }
    }
    pa < pb
}

/// Whether `|x| > 1`, which is when the arctangent folds its argument.
pub fn exceeds_one(bits: u32) -> (r: bool)
    ensures
        r == (magnitude(bits) > one()),
{
    proof {
        lemma_magnitude_of_one();
    }
    is_smaller(ONE_BITS, bits)
}

/// How `atan2(y, x)` is put together.
#[derive(Clone, Copy, Debug, PartialEq, Eq)]
pub enum Atan2Plan {
    /// One of the arguments is a NaN, and so is the angle.
    NotANumber,
    /// Both arguments are zero.  The origin has no direction; the angle
    /// is taken to be zero, and nothing is divided.
    Origin,
    /// The angle is `quarter_turns * pi/2 + atan(y/x)`, or, with
    /// `swap`, `quarter_turns * pi/2 - atan(x/y)`.
    Angle { swap: bool, quarter_turns: i32 },
}

/// The plan that belongs to each pair of arguments.
pub open spec fn plan_of(y: u32, x: u32) -> Atan2Plan {
    if is_nan(y) || is_nan(x) {
        Atan2Plan::NotANumber
    } else if is_zero(y) && is_zero(x) {
        Atan2Plan::Origin
    } else if magnitude(x) < magnitude(y) {
        // nearer the vertical axis: above it or below it
        Atan2Plan::Angle { swap: true, quarter_turns: if sign_of(y) { -1i32 } else { 1i32 } }
    } else if !sign_of(x) {
        // right half plane
        Atan2Plan::Angle { swap: false, quarter_turns: 0 }
    } else {
        // left half plane: half a turn, toward the side that y is on
        Atan2Plan::Angle { swap: false, quarter_turns: if sign_of(y) { -2i32 } else { 2i32 } }
    }
}

/// Chooses the ratio and the quarter turns for `atan2(y, x)`.
pub fn atan2_plan(y: u32, x: u32) -> (r: Atan2Plan)
    ensures
        r == plan_of(y, x),
{
    let py: u32 = y & !SIGN_MASK;
    let px: u32 = x & !SIGN_MASK;
    let y_negative = y & SIGN_MASK != 0;
    let x_negative = x & SIGN_MASK != 0;
    proof {
        lemma_field_masks(y);
        lemma_field_masks(x);
        lemma_magnitude_zero(y);
        lemma_magnitude_zero(x);
        if px < py {
            lemma_magnitude_increases(x, y);
        } else if py < px {
            lemma_magnitude_increases(y, x);
        }
    }
    if py > 0x7f80_0000 || px > 0x7f80_0000 {
        Atan2Plan::NotANumber
    } else if py == 0 && px == 0 {
        Atan2Plan::Origin
    } else if px < py {
        Atan2Plan::Angle { swap: true, quarter_turns: if y_negative { -1 } else { 1 } }
    } else if !x_negative {
        Atan2Plan::Angle { swap: false, quarter_turns: 0 }
    } else {
        Atan2Plan::Angle { swap: false, quarter_turns: if y_negative { -2 } else { 2 } }
    }
}

/// Mirroring the point in the horizontal axis mirrors the plan: the
/// same ratio is used and the quarter turns change sign, so that
/// `atan2(-y, x)` comes out as `-atan2(y, x)`.
pub proof fn lemma_plan_mirrors(y: u32, mirrored: u32, x: u32)
    requires
        mirrored == pack(!sign_of(y), exponent_of(y), mantissa_of(y)),
    ensures
        match plan_of(y, x) {
            Atan2Plan::Angle { swap, quarter_turns } => plan_of(mirrored, x) == (Atan2Plan::Angle {
                swap,
                quarter_turns: (-quarter_turns) as i32,
            }),
            other => plan_of(mirrored, x) == other,
        },
{
    lemma_pack_of_fields(y);
    lemma_fields_of_pack(!sign_of(y), exponent_of(y), mantissa_of(y));
}

/// Whichever ratio the plan picks, its divisor is not zero and its
/// dividend is no larger in size, so the ratio lies in `[-1, 1]`.
pub proof fn lemma_plan_keeps_the_ratio_small(y: u32, x: u32)
    ensures
        plan_of(y, x) matches Atan2Plan::Angle { swap, quarter_turns } ==> {
            &&& -2 <= quarter_turns <= 2
            &&& swap ==> magnitude(x) <= magnitude(y) && magnitude(y) > 0
            &&& !swap ==> magnitude(y) <= magnitude(x) && magnitude(x) > 0
        },
{
    lemma_magnitude_zero(y);
    lemma_magnitude_zero(x);
}

} // verus!
