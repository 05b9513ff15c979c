[package]
name = "fft_spectrum"
version = "0.1.0"
edition = "2021"
publish = false

[dependencies]
rustc_apfloat = "=0.2.3"
ieee-apsqrt = "*"
softfp = "*"
num = "=0.4.3"
