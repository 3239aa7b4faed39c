[package]
name = "vela_federation"
version = "0.1.0"
edition = "2021"
publish = false

[dependencies]
axum = { version = "0.8", default-features = false, features = ["json"] }
dashmap = "6"
ed25519-dalek = "2"
form_urlencoded = "1"
futures = { version = "0.3", default-features = false, features = ["std"] }
hickory-resolver = "0.26"
reqwest = { version = "0.12", default-features = false, features = ["json"] }
serde = { version = "1", features = ["derive"] }
serde_json = "1"
thiserror = "2"
tokio = { version = "1", features = ["rt", "sync", "time", "macros"] }
tracing = "0.1"
uuid = { version = "1", features = ["v4"] }
