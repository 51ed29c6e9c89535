//! The field layout of a single-precision bit pattern, and the functions
//! that read or replace one field while leaving the others untouched.
use vstd::prelude::*;
use vstd::arithmetic::power2::pow2;
use vstd::arithmetic::div_mod::{lemma_fundamental_div_mod, lemma_mod_bound};
use vstd::bits::{lemma_u32_shl_is_mul, lemma_u32_shr_is_div, lemma_u32_pow2_no_overflow};
use vstd::std_specs::bits::axiom_u32_leading_zeros;

verus! {

/// The sign bit.
pub const SIGN_MASK: u32 = 0x8000_0000;

/// The eight exponent bits.
pub const EXPONENT_MASK: u32 = 0x7f80_0000;

/// The twenty-three mantissa bits.
pub const MANTISSA_MASK: u32 = 0x007f_ffff;

/// Width of the mantissa field.
pub const MANTISSA_BITS: u32 = 23;

/// Bias of the stored exponent.
pub const EXPONENT_BIAS: i32 = 127;

/// Whether the sign bit of `bits` is set.
pub open spec fn sign_of(bits: u32) -> bool {
    bits >= 0x8000_0000
}

/// The stored (biased) exponent of `bits`, in `0..=255`.
pub open spec fn exponent_of(bits: u32) -> nat {
    ((bits / 0x80_0000) % 0x100) as nat
}

/// The mantissa field of `bits`, below `2^23`.
pub open spec fn mantissa_of(bits: u32) -> nat {
    (bits % 0x80_0000) as nat
}

/// The pattern that has the given three fields.
pub open spec fn pack(sign: bool, exponent: nat, mantissa: nat) -> u32
    recommends
        exponent < 0x100,
        mantissa < 0x80_0000,
{
    ((if sign { 0x8000_0000nat } else { 0nat }) + exponent * 0x80_0000 + mantissa) as u32
}

/// Taking a pattern apart and packing the three fields again gives the
/// pattern back: the decomposition loses nothing.
pub proof fn lemma_pack_of_fields(bits: u32)
    ensures
        pack(sign_of(bits), exponent_of(bits), mantissa_of(bits)) == bits,
        exponent_of(bits) < 0x100,
        mantissa_of(bits) < 0x80_0000,
{
}

/// The fields of a packed pattern are the fields that went in.
pub proof fn lemma_fields_of_pack(sign: bool, exponent: nat, mantissa: nat)
    requires
        exponent < 0x100,
        mantissa < 0x80_0000,
    ensures
        sign_of(pack(sign, exponent, mantissa)) == sign,
        exponent_of(pack(sign, exponent, mantissa)) == exponent,
        mantissa_of(pack(sign, exponent, mantissa)) == mantissa,
{
}

/// Two patterns with the same three fields are the same pattern.
pub proof fn lemma_fields_determine_bits(a: u32, b: u32)
    requires
        sign_of(a) == sign_of(b),
        exponent_of(a) == exponent_of(b),
        mantissa_of(a) == mantissa_of(b),
    ensures
        a == b,
{
}

/// How the masks and shifts used by the executable code relate to the
/// arithmetic reading of the three fields.
pub proof fn lemma_field_masks(bits: u32)
    by (bit_vector)
    ensures
        (bits & 0x8000_0000u32 != 0) == (bits >= 0x8000_0000u32),
        (bits & 0x8000_0000u32) == (if bits >= 0x8000_0000u32 { 0x8000_0000u32 } else { 0u32 }),
        (bits & 0x7f80_0000u32) >> 23u32 == (bits / 0x80_0000u32) % 0x100u32,
        (bits & 0x7f80_0000u32) == ((bits / 0x80_0000u32) % 0x100u32) * 0x80_0000u32,
        (bits & 0x007f_ffffu32) == bits % 0x80_0000u32,
        (bits & 0x7fff_ffffu32) == bits % 0x8000_0000u32,
        (bits & !0x8000_0000u32) == bits % 0x8000_0000u32,
        (bits >> 1u32) == bits / 2u32,
{
}

/// Reads the sign bit.
pub fn extract_sign_bit(bits: u32) -> (negative: bool)
    ensures
        negative == sign_of(bits),
{
    proof {
        lemma_field_masks(bits);
    }
    bits & SIGN_MASK != 0
}

/// Reads the stored exponent, without removing the bias.
pub fn extract_exponent_bits(bits: u32) -> (exponent: u32)
    ensures
        exponent == exponent_of(bits),
        exponent < 0x100,
{
    proof {
        lemma_field_masks(bits);
    }
    (bits & EXPONENT_MASK) >> MANTISSA_BITS
}

/// Reads the mantissa field.
pub fn extract_mantissa_bits(bits: u32) -> (mantissa: u32)
    ensures
        mantissa == mantissa_of(bits),
        mantissa < 0x80_0000,
{
    proof {
        lemma_field_masks(bits);
    }
    bits & MANTISSA_MASK
}

/// Reads the exponent with the bias removed: `-127` for zeros and
/// subnormals, `128` for infinities and NaNs, and for a normal number
/// the `e` with `2^e <= |x| < 2^(e+1)`.
pub fn extract_exponent_value(bits: u32) -> (exponent: i32)
    ensures
        exponent == exponent_of(bits) - 127,
{
    let stored: u32 = extract_exponent_bits(bits);
    stored as i32 - EXPONENT_BIAS
}

/// Builds a pattern from its three fields.
pub fn compose(negative: bool, exponent: u32, mantissa: u32) -> (bits: u32)
    requires
        exponent < 0x100,
        mantissa < 0x80_0000,
    ensures
        bits == pack(negative, exponent as nat, mantissa as nat),
{
    let sign: u32 = if negative { SIGN_MASK } else { 0 };
    let shifted: u32 = exponent << MANTISSA_BITS;
    proof {
        assert(shifted == exponent * 0x80_0000u32 && (sign | shifted | mantissa) == sign + shifted
            + mantissa) by (bit_vector)
            requires
                exponent < 0x100u32,
                mantissa < 0x80_0000u32,
                shifted == exponent << 23u32,
                sign == 0x8000_0000u32 || sign == 0u32,
        ;
    }
    sign | shifted | mantissa
}

/// Replaces the exponent field so that the unbiased exponent becomes
/// `exponent`; sign and mantissa stay as they are.
pub fn set_exponent(bits: u32, exponent: i32) -> (r: u32)
    requires
        -127 <= exponent <= 128,
    ensures
        r == pack(sign_of(bits), (exponent + 127) as nat, mantissa_of(bits)),
{
    let stored: u32 = (exponent + EXPONENT_BIAS) as u32;
    compose(extract_sign_bit(bits), stored, extract_mantissa_bits(bits))
}

/// A left shift that a right shift undoes has lost no bit, so it is a
/// multiplication by a power of two.
proof fn lemma_shl_undone_is_mul(x: u32, shift: u32)
    requires
        shift < 32,
        (x << shift) >> shift == x,
    ensures
        x << shift == x * pow2(shift as nat),
{
    let y = x << shift;
    let step = pow2(shift as nat) as int;
    lemma_u32_pow2_no_overflow(shift as nat);
    lemma_u32_shr_is_div(y, shift);
    lemma_fundamental_div_mod(y as int, step);
    lemma_mod_bound(y as int, step);
    assert(x * step <= u32::MAX) by (nonlinear_arith)
        requires
            y == step * x + (y as int % step),
            0 <= y as int % step,
            y <= u32::MAX,
    ;
    lemma_u32_shl_is_mul(x, shift);
}

/// Shifting a nonzero tail left by its leading zeros, less the eight
/// bits above the significand, brings its top bit to the place of the
/// implicit one.
proof fn lemma_normalize_bits(tail: u32, lz: u32)
    by (bit_vector)
    requires
        0 < tail < 0x80_0000u32,
        lz <= 31,
        tail >> ((32u32 - lz) as u32) == 0,
        (tail >> ((31u32 - lz) as u32)) & 1u32 != 0u32,
    ensures
        9 <= lz,
        ({
            let shift = (lz - 8u32) as u32;
            let shifted = tail << shift;
            &&& shifted / 0x80_0000u32 == 1u32
            &&& shifted >> shift == tail
            &&& shifted & 0x007f_ffffu32 == shifted % 0x80_0000u32
        }),
{
}

/// Brings the top bit of a nonzero mantissa field up to the place of
/// the implicit one.  Returns the shift and the shifted field, which is
/// the field times two to the shift and fills exactly 24 bits.
pub(crate) fn normalize(field: u32) -> (r: (u32, u32))
    requires
        0 < field < 0x80_0000,
    ensures
        1 <= r.0 <= 23,
        r.1 == field * pow2(r.0 as nat),
        0x80_0000 <= r.1 < 0x100_0000,
{
    let lz: u32 = field.leading_zeros();
    proof {
        axiom_u32_leading_zeros(field);
        lemma_normalize_bits(field, lz);
    }
    let shift: u32 = lz - 8;
    proof {
        lemma_shl_undone_is_mul(field, shift);
    }
    (shift, field << shift)
}

} // verus!
