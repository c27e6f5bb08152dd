[package]
name = "fianco_brain"
version = "0.1.0"
edition = "2021"
publish = false

[dependencies]
rand = "0.8"
pyo3 = "0.20"
numpy = "0.20"
ndarray = "0.15"
