//! The seed of the reciprocal square root.
//!
//! Read as an integer, the pattern of a positive number is close to a
//! scaled and shifted base-two logarithm of the number.  Halving that
//! integer and taking it from a tuned constant therefore lands near
//! the pattern of `1/sqrt(x)`.  The seed is what a caller then refines
//! with one Newton-Raphson step, `y * (1.5 - 0.5 * x * y * y)`, in
//! floating-point arithmetic.
//!
//! The transform is defined on every pattern.  For `x = 0` the seed is
//! the constant itself, a large finite number; for a pattern with the
//! sign bit set the subtraction may wrap, and the result has no
//! numerical meaning.
use vstd::prelude::*;
use crate::layout::{sign_of, lemma_field_masks};
use crate::value::{is_normal, magnitude, lemma_magnitude_increases};

verus! {

/// The constant that the halved pattern is taken from.
pub const RSQRT_MAGIC: u32 = 0x5f37_59df;

/// The seed for `bits`: the constant less half the pattern, modulo
/// `2^32`.
pub open spec fn seed_of(bits: u32) -> u32 {
    if bits / 2 <= RSQRT_MAGIC {
        (RSQRT_MAGIC - bits / 2) as u32
    } else {
        (0x1_0000_0000 + RSQRT_MAGIC - bits / 2) as u32
    }
}

/// Computes the seed of `1/sqrt(x)` from the pattern of `x`.
///
/// For every pattern with a clear sign bit, zero included, nothing
/// wraps and the seed is a positive normal number.
pub fn invsqrt_seed(bits: u32) -> (r: u32)
    ensures
        r == seed_of(bits),
        !sign_of(bits) ==> r == RSQRT_MAGIC - bits / 2 && !sign_of(r) && is_normal(r),
{
    proof {
        lemma_field_masks(bits);
    }
    RSQRT_MAGIC.wrapping_sub(bits >> 1)
}

/// A larger argument never gets a larger seed: on the non-negative
/// numbers the seed falls as the argument grows, as `1/sqrt(x)` does.
pub proof fn lemma_seed_falls(a: u32, b: u32)
    requires
        !sign_of(a),
        !sign_of(b),
        magnitude(a) <= magnitude(b),
    ensures
        magnitude(seed_of(a)) >= magnitude(seed_of(b)),
{
    if b < a {
        lemma_magnitude_increases(b, a);
    }
    if seed_of(b) < seed_of(a) {
        lemma_magnitude_increases(seed_of(b), seed_of(a));
    }
}

} // verus!
