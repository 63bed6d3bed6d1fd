[package]
name = "fastdsu"
version = "0.1.0"
edition = "2021"
publish = false

[dependencies]
ahash = "=0.8.12"
hashbrown = "=0.17.1"
arrow-array = "=59.3.2"
arrow-schema = "=59.3.2"
pyo3 = "=0.30.1"
pyo3-arrow = "=0.20.0"
