[package]
name = "hadamard_core"
version = "0.1.0"
edition = "2021"
publish = false

[dependencies]
atomic-counter = "1"
thiserror = "1"
tokio = { version = "1", features = ["full"] }
reqwest = { version = "0.11", default-features = false, features = ["json", "rustls-tls"] }
serde = { version = "1", features = ["derive"] }
serde_json = "1"
uuid = { version = "1", features = ["v4"] }
