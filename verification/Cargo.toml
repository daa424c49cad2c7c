[package]
name = "sbson"
version = "0.1.0"
edition = "2021"
publish = false

[dependencies]
eytzinger = "1"
phf_shared = "0.11"
serde = { version = "1", features = ["derive"] }
serde_json = "1"
