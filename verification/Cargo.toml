[package]
name = "ton_client_util"
version = "0.1.0"
edition = "2021"
publish = false

[dependencies]
serde = { version = "1", features = ["derive"] }
serde_json = "1"
reqwest = { version = "0.12", default-features = false, features = ["rustls-tls"] }
tokio = { version = "1", features = ["sync", "rt", "macros", "time"] }
tokio-util = "0.7"
futures = "0.3"
tower = { version = "0.4", features = ["discover"] }
hickory-resolver = "0.24"
tracing = "0.1"
anyhow = "1"
