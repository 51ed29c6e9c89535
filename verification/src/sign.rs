//! Operations on the sign bit alone.  None of them looks at the exponent
//! or the mantissa, so they treat zeros, infinities and NaNs like any
//! other pattern, and none of them branches on its input.
use vstd::prelude::*;
use crate::layout::{SIGN_MASK, sign_of, exponent_of, mantissa_of, pack};
use crate::value::{magnitude, value};

verus! {

/// What the sign operations do to a pattern, bit by bit.
proof fn lemma_sign_bit_ops(x: u32, y: u32)
    by (bit_vector)
    ensures
        (x & !0x8000_0000u32) == x % 0x8000_0000u32,
        ((x & !0x8000_0000u32) | (y & 0x8000_0000u32)) == (x % 0x8000_0000u32) + (if y
            >= 0x8000_0000u32 {
            0x8000_0000u32
        } else {
            0u32
        }),
        (x ^ 0x8000_0000u32) == (x % 0x8000_0000u32) + (if x >= 0x8000_0000u32 {
            0u32
        } else {
            0x8000_0000u32
        }),
{
}

/// Absolute value: clears the sign bit.
pub fn abs(bits: u32) -> (r: u32)
    ensures
        r == pack(false, exponent_of(bits), mantissa_of(bits)),
        !sign_of(r),
        magnitude(r) == magnitude(bits),
{
    proof {
        lemma_sign_bit_ops(bits, 0);
    }
    bits & !SIGN_MASK
}

/// The pattern of `x` with its sign bit replaced by that of `sign`.
pub fn copysign(x: u32, sign: u32) -> (r: u32)
    ensures
        r == pack(sign_of(sign), exponent_of(x), mantissa_of(x)),
        sign_of(r) == sign_of(sign),
        magnitude(r) == magnitude(x),
{
    proof {
        lemma_sign_bit_ops(x, sign);
    }
    (x & !SIGN_MASK) | (sign & SIGN_MASK)
}

/// Negation: flips the sign bit.
pub fn negate(bits: u32) -> (r: u32)
    ensures
        r == pack(!sign_of(bits), exponent_of(bits), mantissa_of(bits)),
        sign_of(r) == !sign_of(bits),
        magnitude(r) == magnitude(bits),
        value(r) == -value(bits),
{
    proof {
        lemma_sign_bit_ops(bits, 0);
    }
    bits ^ SIGN_MASK
}

} // verus!
