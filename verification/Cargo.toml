[package]
name = "xrk"
version = "0.1.0"
edition = "2021"
publish = false

[dependencies]
serde = { version = "=1.0.229", features = ["derive"] }
serde_json = "=1.0.154"
thiserror = "=2.0.21"
polars = { version = "=0.55.2", default-features = false, features = ["parquet", "csv", "fmt", "dtype-u16"] }
pyo3 = "=0.30.1"
