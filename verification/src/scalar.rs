//! IEEE-754 binary64 scalar arithmetic on raw bit patterns.
//!
//! Executable arithmetic is delegated to `rustc_apfloat` (and, for the square
//! root, `ieee_apsqrt`), software implementations of IEEE-754 written in pure
//! integer code: each operation is a function of the operand bit patterns
//! alone, which the uninterpreted names below record. All operations round to
//! nearest, ties to even.

use ieee_apsqrt::sqrt_accurate;
use rustc_apfloat::Float;
use rustc_apfloat::Round;
use rustc_apfloat::ieee::Double;
use vstd::prelude::*;

verus! {

/// Bit pattern of positive zero.
pub const ZERO_BITS: u64 = 0;

/// Bit pattern of negative pi, the angle scale of the twiddle factors.
pub const NEG_PI_BITS: u64 = 0xC009_21FB_5444_2D18;

/// Names the rounded sum of two binary64 values, by bit pattern.
pub uninterp spec fn add_bits(a: u64, b: u64) -> u64;

/// Names the rounded difference of two binary64 values, by bit pattern.
pub uninterp spec fn sub_bits(a: u64, b: u64) -> u64;

/// Names the rounded product of two binary64 values, by bit pattern.
pub uninterp spec fn mul_bits(a: u64, b: u64) -> u64;

/// Names the rounded quotient of two binary64 values, by bit pattern.
pub uninterp spec fn div_bits(a: u64, b: u64) -> u64;

/// Names the rounded square root of a binary64 value, by bit pattern.
pub uninterp spec fn sqrt_bits(a: u64) -> u64;

/// Names the binary64 value nearest to an unsigned integer, by bit pattern.
pub uninterp spec fn from_u64_bits(v: u64) -> u64;

/// Relies on `rustc_apfloat::Float::add_r`: software IEEE-754 binary64
/// addition, a pure function of the operand bit patterns. The sum of two
/// positive zeros is positive zero.
#[verifier::external_body]
pub fn fadd(a: u64, b: u64) -> (r: u64)
    ensures
        r == add_bits(a, b),
        a == ZERO_BITS && b == ZERO_BITS ==> r == ZERO_BITS,
{
    let x = Double::from_bits(a as u128);
    let y = Double::from_bits(b as u128);
    x.add_r(y, Round::NearestTiesToEven).value.to_bits() as u64
}

/// Relies on `rustc_apfloat::Float::sub_r`: software IEEE-754 binary64
/// subtraction, a pure function of the operand bit patterns.
#[verifier::external_body]
pub fn fsub(a: u64, b: u64) -> (r: u64)
    ensures
        r == sub_bits(a, b),
{
    let x = Double::from_bits(a as u128);
    let y = Double::from_bits(b as u128);
    x.sub_r(y, Round::NearestTiesToEven).value.to_bits() as u64
}

/// Relies on `rustc_apfloat::Float::mul_r`: software IEEE-754 binary64
/// multiplication, a pure function of the operand bit patterns. The product
/// of two positive zeros is positive zero.
#[verifier::external_body]
pub fn fmul(a: u64, b: u64) -> (r: u64)
    ensures
        r == mul_bits(a, b),
        a == ZERO_BITS && b == ZERO_BITS ==> r == ZERO_BITS,
{
    let x = Double::from_bits(a as u128);
    let y = Double::from_bits(b as u128);
    x.mul_r(y, Round::NearestTiesToEven).value.to_bits() as u64
}

/// Relies on `rustc_apfloat::Float::div_r`: software IEEE-754 binary64
/// division, a pure function of the operand bit patterns.
#[verifier::external_body]
pub fn fdiv(a: u64, b: u64) -> (r: u64)
    ensures
        r == div_bits(a, b),
{
    let x = Double::from_bits(a as u128);
    let y = Double::from_bits(b as u128);
    x.div_r(y, Round::NearestTiesToEven).value.to_bits() as u64
}

/// Relies on `ieee_apsqrt::sqrt_accurate`: correctly rounded software
/// IEEE-754 binary64 square root, a pure function of the operand bit
/// pattern. The root of positive zero is positive zero.
#[verifier::external_body]
pub fn fsqrt(a: u64) -> (r: u64)
    ensures
        r == sqrt_bits(a),
        a == ZERO_BITS ==> r == ZERO_BITS,
{
    sqrt_accurate(a, Round::NearestTiesToEven).0.value
}

/// Relies on `rustc_apfloat::Float::from_u128_r`: conversion of an unsigned
/// integer to the nearest binary64 value, a pure function of the integer.
#[verifier::external_body]
pub fn float_from_u64(v: u64) -> (r: u64)
    ensures
        r == from_u64_bits(v),
{
    Double::from_u128_r(v as u128, Round::NearestTiesToEven).value.to_bits() as u64
}

} // verus!
