[package]
name = "gov"
version = "0.1.0"
edition = "2021"
publish = false

[dependencies]
anyhow = "1"
blake3 = { version = "1", features = ["pure"] }
tokio = { version = "1", default-features = false, features = ["sync"] }
tracing = "0.1"
uuid = "1"
web-time = "1"
