[package]
name = "respframe"
version = "0.1.0"
edition = "2021"
publish = false

[dependencies]
atoi = "*"
bytes = "*"
tokio = { version = "*", features = ["rt-multi-thread", "net", "io-util", "sync", "time", "macros", "signal"] }
