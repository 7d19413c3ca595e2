[package]
name = "umwelt"
version = "0.1.0"
edition = "2021"
publish = false

[dependencies]
async-nats = "*"
bytes = "1"
futures = "0.3"
quinn = "0.11"
tokio = { version = "1", features = ["rt-multi-thread", "sync", "time", "macros"] }
