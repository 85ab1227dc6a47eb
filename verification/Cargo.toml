[package]
name = "npgeohash"
version = "0.1.0"
edition = "2021"
publish = false

[dependencies]
numpy = "0.21"
pyo3 = { version = "0.21", features = ["extension-module"] }
