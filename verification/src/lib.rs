//! Bit-level kernel for fast approximate single-precision arithmetic.
//!
//! Every function here works on the raw 32-bit pattern of an IEEE-754
//! single-precision number (1 sign bit, 8 exponent bits with bias 127,
//! 23 mantissa bits) and uses integer operations only.  The kernel covers
//! the parts of the approximations that are exact: taking a pattern apart
//! and putting it back together, sign handling, rounding to integers,
//! the seed of the reciprocal square root, range reduction for the
//! logarithm and the exponential, and the placement of the two-argument
//! arctangent.  Callers convert with `to_bits` / `from_bits` at the edge.

pub mod arctan;
pub mod layout;
pub mod logexp;
pub mod rounding;
pub mod rsqrt;
pub mod sign;
pub mod value;
