[package]
name = "gfs_index"
version = "0.1.0"
edition = "2021"
publish = false

[dependencies]
anyhow = "1"
chrono = "0.4"
http = "*"
serde = { version = "1", features = ["derive"] }
serde_json = "1"
serde-xml-rs = "*"
spin-sdk = "*"
