[package]
name = "qomicex-downloader"
version = "0.1.0"
edition = "2021"
publish = false

[dependencies]
reqwest = { version = "=0.12.28", default-features = false, features = ["stream", "http2", "rustls-tls", "socks"] }
rand = "=0.9.5"
sha2 = "=0.11.1"
serde_json = "=1.0.154"
thiserror = "=2.0.21"
tokio = { version = "=1.54.1", features = ["full"] }
tokio-util = "=0.7.20"
futures-util = "=0.3.34"
jni = "=0.21.1"
