[package]
name = "secret_chat"
version = "0.1.0"
edition = "2021"
publish = false

[dependencies]
base64 = "=0.13.1"
rust-argon2 = "=1.0.1"
rand = "=0.8.8"
axum = "=0.6.20"
axum-auth = "=0.4.1"
axum-server = "=0.5.1"
tokio = { version = "=1.54.1", features = ["full"] }
tower = "=0.4.13"
tower-http = { version = "=0.4.4", features = ["cors", "trace"] }
tracing = "=0.1.44"
tracing-subscriber = "=0.3.23"
figment = { version = "=0.10.19", features = ["toml", "env"] }
serde = { version = "=1.0.229", features = ["derive"] }
rusqlite = { version = "=0.29.0", features = ["bundled"] }
parking_lot = "=0.12.5"

[dev-dependencies]
bincode = "=1.3.3"
