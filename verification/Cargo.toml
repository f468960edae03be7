[package]
name = "common"
version = "0.1.0"
edition = "2021"
publish = false

[dependencies]
uuid = { version = "1", features = ["v4"] }
serde = { version = "1", features = ["derive"] }
serde_json = { version = "1" }
anyhow = "1"
tracing = "0.1"
dirs = "5"
libc = "0.2"
bincode = { version = "2", features = ["serde"] }
