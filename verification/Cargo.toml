[package]
name = "xtransport"
version = "0.1.0"
edition = "2021"
publish = false

[dependencies]
crc32fast = "1"
heapless = "0.8"
log = "0.4"
env_logger = "0.11"
futures = "0.3"
tokio = { version = "1", features = ["full"] }
tokio-util = { version = "0.7", features = ["compat"] }
tokio-vsock = "*"
yamux = "*"
