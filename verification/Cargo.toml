[package]
name = "scrapestore"
version = "0.1.0"
edition = "2021"
publish = false

[dependencies]
anyhow = "1"
arrow = "*"
aws-config = "*"
aws-sdk-s3 = "*"
chrono = "0.4"
chrono-tz = "*"
dotenvy = "*"
parquet = "*"
serde = { version = "1", features = ["derive"] }
serde_json = "1"
tokio = { version = "1", features = ["full"] }
tracing = "0.1"
tracing-appender = "0.2"
tracing-subscriber = { version = "0.3", features = ["env-filter", "json"] }
