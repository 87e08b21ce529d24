[package]
name = "respkv"
version = "0.1.0"
edition = "2021"
publish = false

[dependencies]
bytes = "1"
dashmap = "6"
tokio = { version = "1", features = ["full"] }
bincode = "1"
serde = { version = "1", features = ["derive"] }
tracing = "0.1"
tracing-subscriber = "0.3"
