[package]
name = "py_lens"
version = "0.1.0"
edition = "2021"
publish = false

[dependencies]
fast_hilbert = "*"
ndarray = { version = "*", features = ["rayon"] }
num-traits = "*"
