[package]
name = "nebuladns"
version = "0.1.0"
edition = "2021"
publish = false

[dependencies]
sha2 = "0.10"
subtle = "2"
arc-swap = "1"
parking_lot = "0.12"
anyhow = "1"
thiserror = "1"
serde = { version = "1", features = ["derive"] }
serde_json = "1"
toml = "0.8"
clap = { version = "4", features = ["derive", "env"] }
tokio = { version = "1", features = ["full"] }
tokio-util = "0.7"
axum = "0.7"
tracing = "0.1"
tracing-subscriber = { version = "0.3", features = ["env-filter", "json"] }
prometheus-client = "0.22"
sd-notify = "0.4"
