[package]
name = "syon"
version = "0.1.0"
edition = "2021"
publish = false

[dependencies]
saphyr-parser = "0.0.6"
serde_json = "1"
serde = { version = "1", features = ["derive"] }
pyo3 = "0.22"
