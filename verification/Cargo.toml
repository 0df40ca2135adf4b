[package]
name = "rust_kv_store"
version = "0.1.0"
edition = "2021"
publish = false

[dependencies]
serde = { version = "=1.0.229", features = ["derive"] }
serde_json = "=1.0.151"
tokio = { version = "=1.53.2", features = ["full"] }
axum = "=0.7.9"
tower-http = { version = "=0.5.2", features = ["cors"] }
uuid = { version = "=1.27.0", features = ["v4", "serde"] }
anyhow = "=1.0.104"
tracing = "=0.1.44"
tracing-subscriber = "=0.3.23"
ndarray = "=0.15.6"
rand = "=0.8.8"
sha2 = "=0.10.9"
hex = "=0.4.3"
