[package]
name = "rsfai"
version = "0.1.0"
edition = "2021"
publish = false

[dependencies]
nalgebra = "=0.35.0"
numpy = "=0.30.0"
opencl3 = "=0.12.4"
pyo3 = { version = "=0.30.1", features = ["abi3-py39", "extension-module"] }
rayon = "1"
rust-hdf5 = "=0.7.9"
thiserror = "=2.0.21"
