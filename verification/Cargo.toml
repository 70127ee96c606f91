[package]
name = "wal_decoder"
version = "0.1.0"
edition = "2021"
publish = false

[dependencies]
anyhow = "1"
bytes = "1"
serde = { version = "1", features = ["derive"] }
tracing = "0.1"
