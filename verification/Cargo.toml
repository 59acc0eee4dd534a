[package]
name = "cordis"
version = "4.0.0"
edition = "2021"
publish = false

[dependencies]
arc-swap = "1"
async-ffi = "0.5"
libloading = "0.8"
minijinja = "2"
notify = "*"
parking_lot = "0.12"
quote = "1"
serde = { version = "1", features = ["derive"] }
serde_json = "1"
serde_yaml_ng = "0.10"
syn = { version = "2", features = ["full"] }
tokio = { version = "1", features = ["rt", "rt-multi-thread", "time", "sync", "macros"] }
