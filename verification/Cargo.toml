[package]
name = "balrs"
version = "0.1.0"
edition = "2021"
publish = false

[dependencies]
murmur3 = "0.5"
csv = "1"
hyper = { version = "1", features = ["server", "client", "http1"] }
hyper-util = { version = "0.1", features = ["tokio"] }
http-body-util = "0.1"
tokio = { version = "1", features = ["full"] }
reqwest = { version = "0.12", default-features = false }
clap = { version = "4", features = ["cargo"] }
whoami = "1"
