[package]
name = "checkmate"
version = "0.1.0"
edition = "2021"
publish = false

[dependencies]
chess = "3.2"
rand = "0.8"
pyo3 = { version = "0.20", features = ["extension-module", "abi3-py38"] }
