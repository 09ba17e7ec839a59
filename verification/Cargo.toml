[package]
name = "cbor2"
version = "0.1.0"
edition = "2021"
publish = false

[dependencies]
half = "2"
num-bigint = "0.4"
bigdecimal = "0.4"
pyo3 = { version = "0.27", features = ["num-bigint", "bigdecimal"] }
