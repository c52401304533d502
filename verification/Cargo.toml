[package]
name = "clarabel"
version = "0.1.0"
edition = "2021"
publish = false

[dependencies]
num-derive = "0.4"
num-traits = "0.2"
pyo3 = { version = "0.20", features = ["extension-module", "abi3-py37"] }
