[package]
name = "mutex_bench"
version = "0.1.0"
edition = "2021"
publish = false

[dependencies]
anyhow = "*"
clap = { version = "*", features = ["derive"] }
figment = { version = "*", features = ["toml"] }
humantime = "*"
parking_lot = "*"
serde = { version = "*", features = ["derive"] }
serde_default_utils = "*"
serde_json = "*"
serde_with = "*"
toml = "*"

[dev-dependencies]
histogram = "*"
