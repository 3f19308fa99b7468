[package]
name = "ping_agent"
version = "0.1.0"
edition = "2021"
publish = false

[dependencies]
slab = "0.4"
uuid = "1"
log = "0.4"
async-trait = "0.1"
tokio = { version = "1", features = ["rt", "sync", "time"] }
tokio-util = { version = "0.7", features = ["rt"] }
reqwest = { version = "0.12", default-features = false }
