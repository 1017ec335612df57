[package]
name = "rotten"
version = "0.1.0"
edition = "2021"
publish = false

[dependencies]
rand = "*"
bytes = "*"
tokio = { version = "*", features = ["rt-multi-thread", "net", "macros", "signal", "sync"], default-features = false }
tracing = "*"
tracing-subscriber = "*"
