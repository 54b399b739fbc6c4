[package]
name = "pathpiece"
version = "0.3.0"
edition = "2021"
publish = false

[dependencies]
hex = "0.4"
rand = "0.8"
rayon = "1"
pyo3 = "0.20"
