[package]
name = "ts-server-query"
version = "0.1.0"
edition = "2021"
publish = false

[dependencies]
thiserror = "2"
tokio = { version = "1", features = ["io-util", "macros", "rt", "sync", "time"] }
