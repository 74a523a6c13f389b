[package]
name = "shortener"
version = "0.1.0"
edition = "2021"
publish = false

[dependencies]
anyhow = "1"
async-trait = "0.1"
axum = "0.7"
bincode = "1"
chrono = { version = "0.4", features = ["serde"] }
config = { version = "0.14", default-features = false, features = ["toml"] }
fastrand = "2"
http-body-util = "0.1"
hyper = { version = "1", features = ["full"] }
serde = { version = "1", features = ["derive"] }
serde_json = "1"
time = "0.3"
tokio = { version = "1", features = ["full"] }
validator = { version = "0.18", features = ["derive"] }
