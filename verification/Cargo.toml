[package]
name = "constriction"
version = "0.1.0"
edition = "2021"
publish = false

[dependencies]
pyo3 = "0.20"
numpy = "0.20"

[dev-dependencies]
rand_xoshiro = "*"
statrs = { version = "*", default-features = false }
