[package]
name = "cvxpy_rust"
version = "0.1.0"
edition = "2021"
publish = false

[dependencies]
rayon = "1"
pyo3 = { version = "0.26", features = ["abi3-py39"] }
numpy = "0.26"
