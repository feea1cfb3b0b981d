[package]
name = "glyphstool"
version = "0.1.0"
edition = "2021"
publish = false

[dependencies]
kurbo = "=0.13.1"
nalgebra = "=0.18.1"
rbf-interp = "=0.1.3"
