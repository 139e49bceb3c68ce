[package]
name = "anwesen"
version = "0.3.0"
edition = "2021"
publish = false

[dependencies]
anyhow = "1"
axum = { version = "0.8", features = ["tokio", "http1"] }
blake3 = { version = "1", features = ["pure"] }
chrono = "0.4"
clap = { version = "4", features = ["derive", "env"] }
hydra = "*"
notify = "8"
opentelemetry = "*"
opentelemetry-otlp = { version = "*", default-features = false, features = ["http-proto", "metrics", "trace", "reqwest-blocking-client"] }
opentelemetry_sdk = "*"
opentelemetry-semantic-conventions = "*"
regex = "1"
serde = { version = "1", features = ["derive"] }
serde_json = "1"
serde_yaml = "0.9"
tantivy = "*"
tokio = { version = "1", features = ["full"] }
tracing = "0.1"
tracing-subscriber = { version = "0.3", features = ["env-filter"] }
walkdir = "2"
