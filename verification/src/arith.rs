//! Trusted IEEE-754 binary32 arithmetic on bit patterns.
//!
//! The delta statistic is defined by single-precision arithmetic, which the
//! verified core cannot perform itself. Each operation the algorithm needs
//! is delegated to `rustc_apfloat`'s software implementation of IEEE-754
//! (round to nearest, ties to even — the same rounding the format's
//! producers use), working directly on `u32` bit patterns. The result of
//! each operation is a function of its operand patterns alone; the
//! uninterpreted functions below name those results, and every contract of
//! the crate speaks through these names.

use vstd::prelude::*;
use rustc_apfloat::Float;
use rustc_apfloat::ieee::Single;
use crate::bits::{is_finite_bits, is_nan_bits, neg_bits};

verus! {

/// The binary32 sum (round to nearest even) of two bit patterns.
pub uninterp spec fn add_bits(a: u32, b: u32) -> u32;

/// The binary32 difference (round to nearest even) of two bit patterns.
pub uninterp spec fn sub_bits(a: u32, b: u32) -> u32;

/// The binary32 square (round to nearest even) of a bit pattern.
pub uninterp spec fn sq_bits(a: u32) -> u32;

/// The binary32 quotient (round to nearest even) of two bit patterns.
pub uninterp spec fn div_bits(a: u32, b: u32) -> u32;

/// The binary32 pattern nearest (ties to even) to the given nonnegative
/// integer.
pub uninterp spec fn usize_to_f32_bits(n: int) -> u32;

/// Relies on `rustc_apfloat::ieee::Single`'s `Add` impl: IEEE-754 binary32
/// addition, round to nearest even, total on all bit patterns.
#[verifier::external_body]
pub fn f32b_add(a: u32, b: u32) -> (r: u32)
    ensures
        r == add_bits(a, b),
{
    (Single::from_bits(a as u128) + Single::from_bits(b as u128)).value.to_bits() as u32
}

/// Relies on `rustc_apfloat::ieee::Single`'s `Sub` impl: IEEE-754 binary32
/// subtraction, round to nearest even, total on all bit patterns. For
/// distinct finite operands the difference taken the other way round is
/// the exact negation of the result, because round-to-nearest-even is
/// symmetric under sign. (For bitwise-equal operands both directions give
/// the same `+0`, which its own negation is not.)
#[verifier::external_body]
pub fn f32b_sub(a: u32, b: u32) -> (r: u32)
    ensures
        r == sub_bits(a, b),
        is_finite_bits(a) && is_finite_bits(b) && a != b ==> neg_bits(r) == sub_bits(b, a),
        is_finite_bits(a) && is_finite_bits(b) ==> !is_nan_bits(r),
    {
    (Single::from_bits(a as u128) - Single::from_bits(b as u128)).value.to_bits() as u32
}

/// Relies on `rustc_apfloat::ieee::Single`'s `Mul` impl applied to a value
/// and itself: the IEEE-754 binary32 square, round to nearest even, total
/// on all bit patterns. For a non-NaN operand the square of the negated
/// pattern is the same pattern (the sign bits cancel and the magnitude is
/// unchanged).
#[verifier::external_body]
pub fn f32b_sq(a: u32) -> (r: u32)
    ensures
        r == sq_bits(a),
        !is_nan_bits(a) ==> r == sq_bits(neg_bits(a)),
{
    let x = Single::from_bits(a as u128);
    (x * x).value.to_bits() as u32
}

/// Relies on `rustc_apfloat::ieee::Single`'s `Div` impl: IEEE-754 binary32
/// division, round to nearest even, total on all bit patterns (division by
/// zero yields an infinity or NaN pattern, never a panic).
#[verifier::external_body]
pub fn f32b_div(a: u32, b: u32) -> (r: u32)
    ensures
        r == div_bits(a, b),
{
    (Single::from_bits(a as u128) / Single::from_bits(b as u128)).value.to_bits() as u32
}

/// Relies on `rustc_apfloat::Float::from_u128`: conversion of a
/// nonnegative integer to the nearest (ties to even) binary32 pattern.
#[verifier::external_body]
pub fn f32b_from_usize(n: usize) -> (r: u32)
    ensures
        r == usize_to_f32_bits(n as int),
{
    Single::from_u128(n as u128).value.to_bits() as u32
}

} // verus!
