[package]
name = "isojson"
version = "0.2.0"
edition = "2021"
publish = false

[dependencies]
itoa = "=1.0.18"
pyo3-ffi = "=0.29.3"
simd-json = { version = "=0.19.0", default-features = false, features = ["big-int-as-float", "runtime-detection", "swar-number-parsing"] }
zmij = "=1.0.23"
