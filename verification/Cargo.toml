[package]
name = "triarb"
version = "0.1.0"
edition = "2021"
publish = false

[dependencies]
sha2 = "=0.10.9"
of_core = "=0.5.0"
of_execution = "=0.2.0"
of_execution_core = "=0.2.0"
of_adapters = { version = "=0.5.0", features = ["binance"] }
rustc-hash = "=2.1.3"
serde = { version = "=1.0.229", features = ["derive"] }
serde_json = "=1.0.154"
toml = "=0.8.23"
clap = { version = "=4.6.7", features = ["derive"] }
anyhow = "=1.0.104"
thiserror = "=2.0.21"
tokio = { version = "=1.54.1", features = ["full"] }
tracing = "=0.1.44"
tracing-subscriber = { version = "=0.3.23", features = ["env-filter", "json"] }
tracing-appender = "=0.2.5"
axum = "=0.7.9"
prometheus = { version = "=0.13.4", default-features = false }
dotenvy = "=0.15.7"
secrecy = "=0.10.3"
