[package]
name = "rakrs"
version = "0.1.0"
edition = "2021"
publish = false

[dependencies]
binary-util = "*"
tokio = { version = "=1.54.1", features = ["net", "rt", "time"] }
async-std = "=1.13.2"
