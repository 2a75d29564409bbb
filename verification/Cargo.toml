[package]
name = "miniredis"
version = "0.1.0"
edition = "2021"
publish = false

[dependencies]
bytes = "*"
tokio = { version = "*", features = ["rt-multi-thread", "net", "time", "io-util", "sync", "macros"] }
