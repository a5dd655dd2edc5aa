[package]
name = "computational_fundamentals"
version = "0.1.0"
edition = "2021"
publish = false

[dependencies]
anyhow = "1"
colored = "2"
http-body-util = "0.1"
hyper = { version = "1", features = ["server", "http1"] }
hyper-util = { version = "0.1", features = ["tokio"] }
linked-hash-map = "0.5"
rand = { version = "0.8", features = ["small_rng"] }
statrs = "0.16"
tokio = { version = "1", features = ["full"] }
