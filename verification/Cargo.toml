[package]
name = "toggl2sheets"
version = "0.1.0"
edition = "2021"
publish = false

[dependencies]
anyhow = "1"
chrono = { version = "=0.4.45", features = ["serde"] }
config = "0.15"
dotenv = "0.15"
google-sheets4 = { version = "7", features = ["yup-oauth2-service-account"] }
opentelemetry-tracing-utils = "0.8"
reqwest = { version = "0.12", default-features = false, features = ["json", "rustls-tls"] }
serde = { version = "1", features = ["derive"] }
serde_json = "=1.0.154"
tokio = { version = "1", features = ["macros", "rt-multi-thread", "time"] }
tokio-cron-scheduler = "0.15"
tracing = "0.1"
yup-oauth2 = "12"
