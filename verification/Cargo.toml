[package]
name = "b_fast"
version = "0.1.0"
edition = "2021"
publish = false

[dependencies]
ahash = "0.8"
lz4_flex = "0.11"
rayon = "1"
thiserror = "1"
pyo3 = "0.20"
numpy = "0.20"
