[package]
name = "mini_httpd"
version = "0.1.0"
edition = "2021"
publish = false

[dependencies]
anyhow = "1"
clap = { version = "4", features = ["derive"] }
futures = "0.3"
tokio = { version = "1", features = ["rt-multi-thread", "macros", "net", "io-util", "fs", "signal", "sync"] }
tokio-util = "0.7"
tracing = "0.1"
tracing-subscriber = "0.3"
