[package]
name = "qwen_engine"
version = "0.1.0"
edition = "2021"
publish = false

[dependencies]
io-uring = "*"
libc = "0.2"
serde = { version = "1", features = ["derive"] }
serde_json = "1"
