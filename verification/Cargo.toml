[package]
name = "rproxy"
version = "0.1.0"
edition = "2021"
publish = false

[dependencies]
hyper = { version = "0.14", features = ["full"] }
rustls-pemfile = "1.0"
tokio = { version = "1", features = ["full"] }
tokio-rustls = "0.24"
