[package]
name = "net_tools"
version = "0.1.0"
edition = "2021"
publish = false

[dependencies]
hickory-resolver = "*"
tokio = { version = "1", features = ["net", "process", "time"] }
