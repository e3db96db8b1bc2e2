[package]
name = "logprep_core"
version = "0.1.0"
edition = "2021"
publish = false

[dependencies]
fancy-regex = "0.14"
regex = "1"
serde = { version = "1", features = ["derive"] }
serde_json = "1"
pyo3 = "0.23"
