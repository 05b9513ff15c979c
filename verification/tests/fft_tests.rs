use fft_spectrum::Complex;
use fft_spectrum::fft;
use fft_spectrum::next_pow2;
use fft_spectrum::twiddle_angles;

/// The twiddle table for a padded length: cosine and sine of each angle the
/// library lays out.
fn table_for(len: usize) -> Vec<Complex> {
    let n = next_pow2(len);
    twiddle_angles(n)
        .into_iter()
        .map(|angle| {
            let theta = f64::from_bits(angle);
            Complex { re: theta.cos().to_bits(), im: theta.sin().to_bits() }
        })
        .collect()
}

/// The full pipeline over native floats.
fn transform(samples: &[f64]) -> Vec<f64> {
    let bits: Vec<u64> = samples.iter().map(|v| v.to_bits()).collect();
    let twiddles = table_for(bits.len());
    fft(&bits, &twiddles).into_iter().map(f64::from_bits).collect()
}

fn bits_of(samples: &[f64]) -> Vec<u64> {
    samples.iter().map(|v| v.to_bits()).collect()
}

#[test]
fn empty_input_gives_single_zero() {
    let out = transform(&[]);
    assert_eq!(out.len(), 1);
    assert_eq!(out[0].to_bits(), 0.0f64.to_bits());
}

#[test]
fn single_sample_is_absolute_value() {
    assert_eq!(transform(&[3.5]), vec![3.5]);
    assert_eq!(transform(&[-2.25]), vec![2.25]);
    assert_eq!(transform(&[0.1]), vec![0.1]);
    assert_eq!(transform(&[0.0]), vec![0.0]);
}

#[test]
fn impulse_has_flat_spectrum() {
    let out = transform(&[1.0, 0.0, 0.0, 0.0]);
    assert_eq!(bits_of(&out), bits_of(&[1.0, 1.0, 1.0, 1.0]));
}

#[test]
fn constant_signal_is_dc_only() {
    let out = transform(&[1.0, 1.0, 1.0, 1.0]);
    assert_eq!(bits_of(&out), bits_of(&[4.0, 0.0, 0.0, 0.0]));
}

#[test]
fn power_of_two_length_is_kept() {
    assert_eq!(transform(&[1.0, 2.0]).len(), 2);
    assert_eq!(transform(&[1.0, 2.0, 3.0, 4.0]).len(), 4);
    assert_eq!(transform(&[0.5; 8]).len(), 8);
}

#[test]
fn other_lengths_round_up_to_next_power_of_two() {
    assert_eq!(transform(&[]).len(), 1);
    assert_eq!(transform(&[1.0, 2.0, 3.0]).len(), 4);
    assert_eq!(transform(&[0.5; 5]).len(), 8);
    assert_eq!(transform(&[0.5; 9]).len(), 16);
}

#[test]
fn next_pow2_values() {
    assert_eq!(next_pow2(0), 1);
    assert_eq!(next_pow2(1), 1);
    assert_eq!(next_pow2(2), 2);
    assert_eq!(next_pow2(3), 4);
    assert_eq!(next_pow2(4), 4);
    assert_eq!(next_pow2(5), 8);
    assert_eq!(next_pow2(1023), 1024);
    assert_eq!(next_pow2(1024), 1024);
    assert_eq!(next_pow2(1025), 2048);
}

#[test]
fn padding_tail_is_zero() {
    // appending an explicit zero to a length just below a power of two
    // analyzes the same signal: the outputs are bit-identical
    let short = transform(&[1.0, -2.0, 0.25]);
    let padded = transform(&[1.0, -2.0, 0.25, 0.0]);
    assert_eq!(bits_of(&short), bits_of(&padded));
}

#[test]
fn twiddle_angles_of_length_four() {
    let angles = twiddle_angles(4);
    assert_eq!(angles.len(), 2);
    let a0 = f64::from_bits(angles[0]);
    assert_eq!(a0, 0.0);
    assert!(a0.is_sign_negative());
    assert_eq!(f64::from_bits(angles[1]), -std::f64::consts::FRAC_PI_2);
}

#[test]
fn mixed_signal_spectrum() {
    let out = transform(&[1.0, 2.0, 3.0, 4.0]);
    assert_eq!(out[0].to_bits(), 10.0f64.to_bits());
    assert_eq!(out[2].to_bits(), 2.0f64.to_bits());
    let expected = 8.0f64.sqrt();
    assert!((out[1] - expected).abs() < 1e-12);
    assert!((out[3] - expected).abs() < 1e-12);
}

#[test]
fn scaling_samples_scales_magnitudes() {
    let samples = [1.0, 2.0, -3.0, 0.5, 4.0];
    let doubled: Vec<f64> = samples.iter().map(|v| 2.0 * v).collect();
    let base = transform(&samples);
    let scaled = transform(&doubled);
    assert_eq!(base.len(), scaled.len());
    for (b, s) in base.iter().zip(scaled.iter()) {
        assert_eq!(s.to_bits(), (2.0 * b).to_bits());
    }
}

#[test]
fn negating_samples_keeps_magnitudes() {
    let samples = [1.0, 2.0, -3.0, 0.5, 4.0];
    let negated: Vec<f64> = samples.iter().map(|v| -v).collect();
    assert_eq!(bits_of(&transform(&samples)), bits_of(&transform(&negated)));
}

#[test]
fn repeated_calls_are_bit_identical() {
    let samples = [0.1, -0.7, 2.5, 3.25, -1.125, 0.0, 9.75];
    let first = transform(&samples);
    let second = transform(&samples);
    assert_eq!(bits_of(&first), bits_of(&second));
}

#[test]
fn impulse_of_length_eight_is_flat() {
    let out = transform(&[1.0, 0.0, 0.0, 0.0, 0.0, 0.0, 0.0, 0.0]);
    assert_eq!(bits_of(&out), bits_of(&[1.0; 8]));
    // an impulse padded from length five analyzes the same signal
    let padded = transform(&[1.0, 0.0, 0.0, 0.0, 0.0]);
    assert_eq!(bits_of(&padded), bits_of(&[1.0; 8]));
}

#[test]
fn constant_of_length_eight_is_dc_only() {
    let out = transform(&[1.0; 8]);
    assert_eq!(bits_of(&out), bits_of(&[8.0, 0.0, 0.0, 0.0, 0.0, 0.0, 0.0, 0.0]));
}

#[test]
fn alternating_signal_hits_odd_bins() {
    let out = transform(&[1.0, 0.0, -1.0, 0.0]);
    assert_eq!(bits_of(&out), bits_of(&[0.0, 2.0, 0.0, 2.0]));
}

#[test]
fn non_finite_samples_propagate() {
    let out = transform(&[f64::NAN, 0.0]);
    assert_eq!(out.len(), 2);
    assert!(out[0].is_nan());
    assert!(out[1].is_nan());
    let out = transform(&[f64::INFINITY, 0.0]);
    assert!(out[0].is_infinite() || out[0].is_nan());
}
