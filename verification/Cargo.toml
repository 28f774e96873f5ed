[package]
name = "hypothesis_fast"
version = "0.0.3"
edition = "2021"
publish = false

[dependencies]
half = "2"
libm = "0.2"
num-bigint = "0.4"
num-integer = "0.1"
num-traits = "0.2"
pyo3 = { version = "0.27", features = ["abi3-py311", "extension-module", "num-bigint"] }
rand = "0.8"
