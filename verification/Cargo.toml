[package]
name = "raug_fft"
version = "0.1.0"
edition = "2021"
publish = false

[dependencies]
apodize = "1.0.0"
log = "0.4"
realfft = "3.5.0"
thiserror = "2.0"
