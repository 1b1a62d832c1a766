[package]
name = "async_http_range_reader"
version = "0.1.0"
edition = "2021"
publish = false

[dependencies]
bisection = "0.1"
bytes = "1"
futures = "0.3"
http-content-range = "0.2"
itertools = "0.14"
reqwest = { version = "0.12", default-features = false, features = ["stream"] }
reqwest-middleware = { version = "0.4", default-features = false }
tokio = { version = "1", features = ["rt", "sync", "io-util"] }
tokio-stream = { version = "0.1", features = ["sync"] }
tokio-util = "0.7"
tracing = "0.1"
