[package]
name = "echelon"
version = "0.1.0"
edition = "2021"
publish = false

[dependencies]
chrono = "0.4"
serde = { version = "1", features = ["derive"] }
serde_json = "1"
tokio = { version = "1", features = ["full"] }
async_ftp = "6"
axum = "0.7"
influxdb = { version = "0.7", features = ["derive"] }
resend-rs = "*"
dotenvy = "0.15"
anyhow = "1"
clap = { version = "4", features = ["derive"] }
futures = "0.3"
tracing = "0.1"
tracing-subscriber = { version = "0.3", features = ["env-filter"] }
