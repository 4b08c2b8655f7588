[package]
name = "eth_watch"
version = "0.1.0"
edition = "2021"
publish = false

[dependencies]
anyhow = "1"
async-trait = "0.1"
http = "1"
rand = "0.8"
tokio = { version = "1", features = ["macros", "rt", "sync", "time"] }
tracing = "0.1"
