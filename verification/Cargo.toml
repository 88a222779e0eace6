[package]
name = "ksm"
version = "0.1.0"
edition = "2021"
publish = false

[dependencies]
dashmap = "*"
encoding_rs = "*"
chrono = "*"
chrono-tz = "*"
serde = { version = "*", features = ["derive"] }
serde_json = "*"
tide = "*"
async-std = { version = "*", features = ["attributes"] }
signal-hook = "*"
