[package]
name = "zkkv"
version = "0.1.0"
edition = "2021"
publish = false

[dependencies]
zookeeper-client = "*"
tokio = { version = "*", features = ["rt-multi-thread", "macros"] }
