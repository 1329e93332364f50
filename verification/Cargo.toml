[package]
name = "rowtree"
version = "0.1.0"
edition = "2021"
publish = false

[dependencies]
parquet = { version = "*", default-features = false }

[dev-dependencies]
serde_json = "*"
csv = "*"
