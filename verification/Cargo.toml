[package]
name = "fft_convolve_2d"
version = "0.1.0"
edition = "2021"
publish = false

[dependencies]
anyhow = "*"
clap = "*"
image = "*"
num-complex = "*"
rustfft = "*"

[dev-dependencies]
