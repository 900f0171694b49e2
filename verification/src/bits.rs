//! IEEE-754 binary32 values as raw bit patterns.
//!
//! The trajectory format stores single-precision floats; this crate carries
//! them everywhere as their `u32` bit patterns. Everything here is pure bit
//! logic on those patterns: classification (NaN / finite), sign negation,
//! and the IEEE comparison order, which is exactly the order of the
//! sign-magnitude integer keys defined below.

use vstd::prelude::*;

verus! {

/// Bit pattern of negative zero, the accumulator seed used by the distance
/// and delta sums.
pub const NEG_ZERO_BITS: u32 = 0x8000_0000;

/// Bit pattern of 1.0.
pub const ONE_BITS: u32 = 0x3F80_0000;

/// Bit pattern of 10.0, the default squared-distance neighbor cutoff.
pub const DEFAULT_CUTOFF_SQ_BITS: u32 = 0x4120_0000;

/// Exponent field (8 bits) of a binary32 pattern.
pub open spec fn exp_field(b: u32) -> u32 {
    (b >> 23) & 0xff
}

/// Significand field (23 bits) of a binary32 pattern.
pub open spec fn frac_field(b: u32) -> u32 {
    b & 0x7f_ffff
}

/// The pattern denotes a NaN: exponent all ones, nonzero significand.
pub open spec fn is_nan_bits(b: u32) -> bool {
    exp_field(b) == 0xff && frac_field(b) != 0
}

/// The pattern denotes a finite value (neither an infinity nor a NaN).
pub open spec fn is_finite_bits(b: u32) -> bool {
    exp_field(b) != 0xff
}

/// IEEE negation is exact: it only flips the sign bit.
pub open spec fn neg_bits(b: u32) -> u32 {
    b ^ 0x8000_0000
}

/// Magnitude (bit pattern with the sign bit cleared).
pub open spec fn mag_bits(b: u32) -> int {
    (b & 0x7fff_ffff) as int
}

/// Sign-magnitude integer key: for non-NaN patterns, the IEEE order of the
/// denoted values is exactly the order of these keys. Both zeros map to 0.
pub open spec fn float_key(b: u32) -> int {
    if b >> 31 == 1 {
        -mag_bits(b)
    } else {
        mag_bits(b)
    }
}

/// IEEE `<` on two binary32 patterns: false if either is NaN, otherwise
/// strict order of the sign-magnitude keys.
pub open spec fn lt_bits(a: u32, b: u32) -> bool {
    &&& !is_nan_bits(a)
    &&& !is_nan_bits(b)
    &&& float_key(a) < float_key(b)
}

/// Executable IEEE `<` on bit patterns.
pub fn f32_bits_lt(a: u32, b: u32) -> (r: bool)
    ensures
        r == lt_bits(a, b),
{
    let a_exp: u32 = (a >> 23) & 0xff;
    let b_exp: u32 = (b >> 23) & 0xff;
    if a_exp == 0xff && (a & 0x7f_ffff) != 0 {
        return false;
    }
    if b_exp == 0xff && (b & 0x7f_ffff) != 0 {
        return false;
    }
    let a_mag: u32 = a & 0x7fff_ffff;
    let b_mag: u32 = b & 0x7fff_ffff;
    let a_key: i64 = if a >> 31 == 1 {
        -(a_mag as i64)
    } else {
        a_mag as i64
    };
    let b_key: i64 = if b >> 31 == 1 {
        -(b_mag as i64)
    } else {
        b_mag as i64
    };
    a_key < b_key
}

} // verus!
