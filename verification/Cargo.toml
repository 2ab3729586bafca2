[package]
name = "region_control"
version = "0.1.0"
edition = "2021"
publish = false

[dependencies]
async-trait = "*"
flume = "*"
futures = "*"
serde = { version = "*", features = ["derive"] }
serde_json = "*"
tokio = { version = "*", features = ["rt", "rt-multi-thread", "sync", "time", "macros"] }
tokio-util = "*"
