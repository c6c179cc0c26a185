[package]
name = "iroha_python"
version = "0.1.0"
edition = "2021"
publish = false

[dependencies]
color-eyre = "=0.6.5"
pyo3 = { version = "=0.17.3", features = ["pyproto"] }
pythonize = "=0.17.0"
serde = "=1.0.229"
