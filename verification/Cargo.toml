[package]
name = "imesde"
version = "0.1.0"
edition = "2021"
publish = false

[dependencies]
arc-swap = "=1.9.3"
fxhash = "=0.2.1"
rayon = "=1.12.0"
ndarray = "=0.17.2"
ort = { version = "=2.0.0-rc.15", default-features = false, features = ["std", "ndarray", "load-dynamic"] }
pyo3 = "=0.30.1"
tokenizers = "=0.23.2"
