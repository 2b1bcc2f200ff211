//! Single-precision scalars as raw 32-bit patterns.
//!
//! The tree and the collision tests never look at a coordinate except through
//! this module. A value of type `u32` is read as the bit pattern of an IEEE 754
//! single-precision number: 1 sign bit, 8 exponent bits, 23 mantissa bits.
//! The ordering of such numbers is simple enough to state outright and prove
//! (`lt`, `le` below, with verified comparison functions); the rounded
//! arithmetic is performed by `rustc_apfloat` behind trusted wrappers whose
//! results are given names (`f_add` and friends) that the rest of the crate's
//! contracts are written over.

use rustc_apfloat::Float;
use rustc_apfloat::ieee::Single;
use vstd::prelude::*;

verus! {

/// Bit pattern of positive zero.
pub const ZERO_BITS: u32 = 0x0000_0000;

/// Bit pattern of one.
pub const ONE_BITS: u32 = 0x3f80_0000;

/// Bit pattern of minus one.
pub const NEG_ONE_BITS: u32 = 0xbf80_0000;

/// Magnitude of a bit pattern: everything but the sign bit.
pub open spec fn mag(b: u32) -> int {
    if b >= 0x8000_0000 {
        b - 0x8000_0000
    } else {
        b as int
    }
}

/// A pattern with all exponent bits set and a non-zero mantissa is a NaN.
pub open spec fn is_nan(b: u32) -> bool {
    mag(b) > 0x7f80_0000
}

/// Position of a non-NaN pattern on the number line, as an integer key:
/// negative values sort below positive ones by magnitude, and the two
/// zero patterns share the key 0.
pub open spec fn order_key(b: u32) -> int {
    if b >= 0x8000_0000 {
        -mag(b)
    } else {
        mag(b)
    }
}

/// `a < b` on single-precision values: false whenever either side is NaN.
pub open spec fn lt(a: u32, b: u32) -> bool {
    !is_nan(a) && !is_nan(b) && order_key(a) < order_key(b)
}

/// `a <= b` on single-precision values: false whenever either side is NaN.
pub open spec fn le(a: u32, b: u32) -> bool {
    !is_nan(a) && !is_nan(b) && order_key(a) <= order_key(b)
}

/// The smaller of two values under IEEE `minNum`: a NaN argument loses.
pub open spec fn f_min(a: u32, b: u32) -> u32 {
    if is_nan(a) {
        b
    } else if is_nan(b) {
        a
    } else if lt(a, b) {
        a
    } else {
        b
    }
}

/// The larger of two values under IEEE `maxNum`: a NaN argument loses.
pub open spec fn f_max(a: u32, b: u32) -> u32 {
    if is_nan(a) {
        b
    } else if is_nan(b) {
        a
    } else if lt(b, a) {
        a
    } else {
        b
    }
}

/// Magnitude of a pattern, as executable code.
pub fn mag_bits(b: u32) -> (m: u32)
    ensures
        m == mag(b),
{
    if b >= 0x8000_0000 {
        b - 0x8000_0000
    } else {
        b
    }
}

/// NaN test, as executable code.
pub fn is_nan_bits(b: u32) -> (r: bool)
    ensures
        r == is_nan(b),
{
    mag_bits(b) > 0x7f80_0000
}

/// Strict comparison of two patterns, as executable code.
pub fn lt_bits(a: u32, b: u32) -> (r: bool)
    ensures
        r == lt(a, b),
{
    if is_nan_bits(a) || is_nan_bits(b) {
        false
    } else {
        let neg_a: bool = a >= 0x8000_0000;
        let neg_b: bool = b >= 0x8000_0000;
        if neg_a && neg_b {
            // both keys are non-positive: the larger magnitude is further down
            b - 0x8000_0000 < a - 0x8000_0000
        } else if neg_a {
            // a's key is non-positive and b's non-negative: only two zeros tie
            !(a == 0x8000_0000 && b == 0)
        } else if neg_b {
            false
        } else {
            a < b
        }
    }
}

/// Non-strict comparison of two patterns, as executable code.
pub fn le_bits(a: u32, b: u32) -> (r: bool)
    ensures
        r == le(a, b),
{
    if is_nan_bits(a) || is_nan_bits(b) {
        false
    } else {
        !lt_bits(b, a)
    }
}

/// The smaller of two patterns under `minNum`, as executable code.
pub fn min_bits(a: u32, b: u32) -> (r: u32)
    ensures
        r == f_min(a, b),
{
    if is_nan_bits(a) {
        b
    } else if is_nan_bits(b) {
        a
    } else if lt_bits(a, b) {
        a
    } else {
        b
    }
}

/// The larger of two patterns under `maxNum`, as executable code.
pub fn max_bits(a: u32, b: u32) -> (r: u32)
    ensures
        r == f_max(a, b),
{
    if is_nan_bits(a) {
        b
    } else if is_nan_bits(b) {
        a
    } else if lt_bits(b, a) {
        a
    } else {
        b
    }
}

/// The rounded single-precision sum of two patterns.
pub uninterp spec fn f_add(a: u32, b: u32) -> u32;

/// The rounded single-precision difference of two patterns.
pub uninterp spec fn f_sub(a: u32, b: u32) -> u32;

/// The rounded single-precision product of two patterns.
pub uninterp spec fn f_mul(a: u32, b: u32) -> u32;

/// The rounded single-precision quotient of two patterns.
pub uninterp spec fn f_div(a: u32, b: u32) -> u32;

/// The single-precision value nearest to a machine word's count.
pub uninterp spec fn f_of_usize(n: int) -> u32;

/// Relies on `rustc_apfloat`'s IEEE single-precision addition, rounding to
/// nearest even; the sum depends on the two bit patterns alone.
#[verifier::external_body]
pub fn add_bits(a: u32, b: u32) -> (r: u32)
    ensures
        r == f_add(a, b),
{
    let x = Single::from_bits(a as u128);
    let y = Single::from_bits(b as u128);
    (x + y).value.to_bits() as u32
}

/// Relies on `rustc_apfloat`'s IEEE single-precision subtraction, rounding to
/// nearest even; the difference depends on the two bit patterns alone.
#[verifier::external_body]
pub fn sub_bits(a: u32, b: u32) -> (r: u32)
    ensures
        r == f_sub(a, b),
{
    let x = Single::from_bits(a as u128);
    let y = Single::from_bits(b as u128);
    (x - y).value.to_bits() as u32
}

/// Relies on `rustc_apfloat`'s IEEE single-precision multiplication, rounding
/// to nearest even; the product depends on the two bit patterns alone.
#[verifier::external_body]
pub fn mul_bits(a: u32, b: u32) -> (r: u32)
    ensures
        r == f_mul(a, b),
{
    let x = Single::from_bits(a as u128);
    let y = Single::from_bits(b as u128);
    (x * y).value.to_bits() as u32
}

/// Relies on `rustc_apfloat`'s IEEE single-precision division, rounding to
/// nearest even; the quotient depends on the two bit patterns alone.
#[verifier::external_body]
pub fn div_bits(a: u32, b: u32) -> (r: u32)
    ensures
        r == f_div(a, b),
{
    let x = Single::from_bits(a as u128);
    let y = Single::from_bits(b as u128);
    (x / y).value.to_bits() as u32
}

/// Relies on `rustc_apfloat`'s conversion of an unsigned integer to the
/// nearest IEEE single-precision value; the result depends on the count alone.
#[verifier::external_body]
pub fn usize_to_bits(n: usize) -> (r: u32)
    ensures
        r == f_of_usize(n as int),
{
    Single::from_u128(n as u128).value.to_bits() as u32
}

} // verus!
