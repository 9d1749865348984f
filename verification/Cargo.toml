[package]
name = "korucha_fund"
version = "0.1.0"
edition = "2021"
publish = false

[dependencies]
anyhow = "=1.0.104"
askama = "=0.13.1"
axum = { version = "=0.7.9", features = ["multipart", "macros"] }
base64 = "=0.22.1"
chrono = { version = "=0.4.45", features = ["serde"] }
croner = "=3.0.1"
dotenvy = "=0.15.7"
resvg = "=0.49.0"
serde = { version = "=1.0.229", features = ["derive"] }
serde_json = "=1.0.154"
sqlx = { version = "=0.8.6", default-features = false, features = ["runtime-tokio", "sqlite", "chrono", "migrate", "macros"] }
thiserror = "=2.0.21"
tokio = { version = "=1.54.1", features = ["full"] }
tokio-cron-scheduler = "=0.15.1"
tower-http = { version = "=0.6.11", features = ["trace", "fs"] }
tracing = "=0.1.44"
tracing-subscriber = { version = "=0.3.23", features = ["env-filter"] }
url = "=2.5.8"
yahoo_finance_api = "=5.0.0"
