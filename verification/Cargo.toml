[package]
name = "zeroq"
version = "0.1.0"
edition = "2021"
publish = false

[dependencies]
pyo3 = "0.22"
shared_memory = "0.12"
