[package]
name = "minimage"
version = "0.1.1"
edition = "2021"
publish = false

[dependencies]
pyo3 = "0.22"
