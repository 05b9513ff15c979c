//! Complex values over binary64 bit patterns, with the arithmetic the
//! butterfly combine step needs and the Euclidean norm of a coefficient.

use crate::scalar::ZERO_BITS;
use crate::scalar::add_bits;
use crate::scalar::fadd;
use crate::scalar::fmul;
use crate::scalar::fsqrt;
use crate::scalar::fsub;
use crate::scalar::mul_bits;
use crate::scalar::sqrt_bits;
use crate::scalar::sub_bits;
use vstd::prelude::*;

verus! {

/// A complex number; both components are binary64 bit patterns.
#[derive(Clone, Copy, PartialEq, Eq, Structural, Debug)]
pub struct Complex {
    pub re: u64,
    pub im: u64,
}

/// Complex zero: both components positive zero.
pub open spec fn czero() -> Complex {
    Complex { re: ZERO_BITS, im: ZERO_BITS }
}

/// Componentwise rounded sum.
pub open spec fn spec_cadd(a: Complex, b: Complex) -> Complex {
    Complex { re: add_bits(a.re, b.re), im: add_bits(a.im, b.im) }
}

/// Componentwise rounded difference.
pub open spec fn spec_csub(a: Complex, b: Complex) -> Complex {
    Complex { re: sub_bits(a.re, b.re), im: sub_bits(a.im, b.im) }
}

/// Rounded complex product, real part `a.re * b.re - a.im * b.im` and
/// imaginary part `a.re * b.im + a.im * b.re`.
pub open spec fn spec_cmul(a: Complex, b: Complex) -> Complex {
    Complex {
        re: sub_bits(mul_bits(a.re, b.re), mul_bits(a.im, b.im)),
        im: add_bits(mul_bits(a.re, b.im), mul_bits(a.im, b.re)),
    }
}

/// Euclidean norm of a coefficient: the rounded square root of the rounded
/// sum of the squared components.
pub open spec fn spec_magnitude(a: Complex) -> u64 {
    sqrt_bits(add_bits(mul_bits(a.re, a.re), mul_bits(a.im, a.im)))
}

pub fn cadd(a: Complex, b: Complex) -> (r: Complex)
    ensures
        r == spec_cadd(a, b),
{
    Complex { re: fadd(a.re, b.re), im: fadd(a.im, b.im) }
}

pub fn csub(a: Complex, b: Complex) -> (r: Complex)
    ensures
        r == spec_csub(a, b),
{
    Complex { re: fsub(a.re, b.re), im: fsub(a.im, b.im) }
}

pub fn cmul(a: Complex, b: Complex) -> (r: Complex)
    ensures
        r == spec_cmul(a, b),
{
    let rr = fmul(a.re, b.re);
    let ii = fmul(a.im, b.im);
    let ri = fmul(a.re, b.im);
    let ir = fmul(a.im, b.re);
    Complex { re: fsub(rr, ii), im: fadd(ri, ir) }
}

/// The magnitude of the complex zero is exactly zero.
pub fn magnitude(a: Complex) -> (r: u64)
    ensures
        r == spec_magnitude(a),
        a == czero() ==> r == ZERO_BITS,
{
    let rr = fmul(a.re, a.re);
    let ii = fmul(a.im, a.im);
    fsqrt(fadd(rr, ii))
}

} // verus!
