//! Magnitude spectrum of a real-valued sample sequence, computed with a
//! radix-2 fast Fourier transform.
//!
//! Samples are IEEE-754 binary64 numbers, carried throughout as their raw
//! bit patterns (`u64`), so that power-of-two padding, the recursive
//! butterfly passes and the final magnitude reduction can all be specified
//! and verified over plain values. The scalar arithmetic itself is delegated
//! to a software implementation of IEEE-754, which makes every operation a
//! function of the operand bit patterns alone.
//!
//! The twiddle factors are the one ingredient the crate cannot compute for
//! itself: their angles are produced (exactly pinned) by
//! [`transform::twiddle_angles`], and the caller supplies the cosine and
//! sine of each angle to [`transform::fft`].

pub mod complex;
pub mod pow2;
pub mod scalar;
pub mod transform;

pub use complex::Complex;
pub use pow2::next_pow2;
pub use transform::fft;
pub use transform::twiddle_angles;
