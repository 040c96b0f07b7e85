//! Scalars of the computation graph, held as the bit patterns of IEEE 754
//! binary64 numbers. The graph engine never interprets a scalar beyond its
//! bits; the four arithmetic operations are carried out by `rustc_apfloat`,
//! which implements binary64 arithmetic directly over bit patterns, and their
//! results are named by uninterpreted spec functions. Negation and the
//! comparison against zero are pure bit-level operations and are implemented
//! and specified here in full.

use vstd::prelude::*;

verus! {

/// Bit pattern of positive zero.
pub const ZERO_BITS: u64 = 0x0000_0000_0000_0000;

/// Bit pattern of one.
pub const ONE_BITS: u64 = 0x3FF0_0000_0000_0000;

/// Sign bit of a binary64 bit pattern.
pub const SIGN_MASK: u64 = 0x8000_0000_0000_0000;

/// Exponent field of a binary64 bit pattern.
pub const EXP_MASK: u64 = 0x7FF0_0000_0000_0000;

/// Significand field of a binary64 bit pattern.
pub const FRAC_MASK: u64 = 0x000F_FFFF_FFFF_FFFF;

/// The sum of the two scalars encoded by `a` and `b`, as a bit pattern.
pub uninterp spec fn add_of(a: u64, b: u64) -> u64;

/// The difference of the two scalars encoded by `a` and `b`, as a bit pattern.
pub uninterp spec fn sub_of(a: u64, b: u64) -> u64;

/// The product of the two scalars encoded by `a` and `b`, as a bit pattern.
pub uninterp spec fn mul_of(a: u64, b: u64) -> u64;

/// The quotient of the two scalars encoded by `a` and `b`, as a bit pattern.
/// Division by zero is not special-cased anywhere in this crate: it encodes
/// an infinity or a NaN here, and that bit pattern flows on unchanged.
pub uninterp spec fn div_of(a: u64, b: u64) -> u64;

/// Relies on rustc_apfloat's `Float::add_r` on `ieee::Double`: binary64
/// addition over bit patterns, rounding to nearest, ties to even.
#[verifier::external_body]
pub fn add_bits(a: u64, b: u64) -> (r: u64)
    ensures
        r == add_of(a, b),
{
    let x = rustc_apfloat::Float::from_bits(a as u128);
    let y: rustc_apfloat::ieee::Double = rustc_apfloat::Float::from_bits(b as u128);
    let s = rustc_apfloat::Float::add_r(x, y, rustc_apfloat::Round::NearestTiesToEven);
    rustc_apfloat::Float::to_bits(s.value) as u64
}

/// Relies on rustc_apfloat's `Float::sub_r` on `ieee::Double`: binary64
/// subtraction over bit patterns, rounding to nearest, ties to even.
#[verifier::external_body]
pub fn sub_bits(a: u64, b: u64) -> (r: u64)
    ensures
        r == sub_of(a, b),
{
    let x = rustc_apfloat::Float::from_bits(a as u128);
    let y: rustc_apfloat::ieee::Double = rustc_apfloat::Float::from_bits(b as u128);
    let s = rustc_apfloat::Float::sub_r(x, y, rustc_apfloat::Round::NearestTiesToEven);
    rustc_apfloat::Float::to_bits(s.value) as u64
}

/// Relies on rustc_apfloat's `Float::mul_r` on `ieee::Double`: binary64
/// multiplication over bit patterns, rounding to nearest, ties to even.
#[verifier::external_body]
pub fn mul_bits(a: u64, b: u64) -> (r: u64)
    ensures
        r == mul_of(a, b),
{
    let x = rustc_apfloat::Float::from_bits(a as u128);
    let y: rustc_apfloat::ieee::Double = rustc_apfloat::Float::from_bits(b as u128);
    let s = rustc_apfloat::Float::mul_r(x, y, rustc_apfloat::Round::NearestTiesToEven);
    rustc_apfloat::Float::to_bits(s.value) as u64
}

/// Relies on rustc_apfloat's `Float::div_r` on `ieee::Double`: binary64
/// division over bit patterns, rounding to nearest, ties to even.
#[verifier::external_body]
pub fn div_bits(a: u64, b: u64) -> (r: u64)
    ensures
        r == div_of(a, b),
{
    let x = rustc_apfloat::Float::from_bits(a as u128);
    let y: rustc_apfloat::ieee::Double = rustc_apfloat::Float::from_bits(b as u128);
    let s = rustc_apfloat::Float::div_r(x, y, rustc_apfloat::Round::NearestTiesToEven);
    rustc_apfloat::Float::to_bits(s.value) as u64
}

/// The negation of the scalar encoded by `a`. IEEE 754 negation flips the
/// sign bit and leaves everything else, NaNs included, untouched.
pub open spec fn flip_sign(a: u64) -> u64 {
    a ^ SIGN_MASK
}

/// Negation, computed directly on the bit pattern.
pub fn neg_bits(a: u64) -> (r: u64)
    ensures
        r == flip_sign(a),
{
    a ^ SIGN_MASK
}

/// Whether the bit pattern `a` encodes a NaN: all exponent bits set and a
/// non-zero significand.
pub open spec fn is_nan(a: u64) -> bool {
    a & EXP_MASK == EXP_MASK && a & FRAC_MASK != 0
}

/// Whether the scalar encoded by `a` is strictly greater than zero: its sign
/// bit is clear, its magnitude is non-zero (so it is not a zero), and it is
/// not a NaN. A NaN compares greater than nothing.
pub open spec fn is_pos(a: u64) -> bool {
    a & SIGN_MASK == 0 && a & (EXP_MASK | FRAC_MASK) != 0 && !is_nan(a)
}

/// The comparison against zero, computed directly on the bit pattern.
pub fn gt_zero(a: u64) -> (r: bool)
    ensures
        r == is_pos(a),
{
    a & SIGN_MASK == 0 && a & (EXP_MASK | FRAC_MASK) != 0
        && !(a & EXP_MASK == EXP_MASK && a & FRAC_MASK != 0)
}

} // verus!
