[package]
name = "vectra_engine"
version = "0.1.0"
edition = "2021"
publish = false

[dependencies]
flate2 = "1.0"
serde = { version = "1.0", features = ["derive"] }
serde_json = "1.0"
