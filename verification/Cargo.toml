[package]
name = "srs"
version = "0.1.0"
edition = "2021"
publish = false

[dependencies]
butterfly-fft = "=1.0.2"
fgf = "=1.2.1"
gfm = "=1.0.1"
