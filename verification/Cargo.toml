[package]
name = "flatgfa"
version = "0.1.0"
edition = "2021"
publish = false

[dependencies]
argh = "0.1"
bstr = "1"
memmap = "0.7"
pyo3 = { version = "0.21", features = ["extension-module"] }
