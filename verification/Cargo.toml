[package]
name = "vmstat_valkey"
version = "0.1.0"
edition = "2021"
publish = false

[dependencies]
anyhow = "1"
chrono = "0.4"
redis = "0.27"
regex = "1"
serde = { version = "1", features = ["derive"] }
serde_json = "1"
