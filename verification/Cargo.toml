[package]
name = "rust_lotto_analyzer"
version = "0.1.0"
edition = "2021"
publish = false

[dependencies]
anyhow = "=1.0.104"
chrono = { version = "=0.4.45", features = ["serde"] }
clap = { version = "=4.6.7", features = ["derive"] }
csv = "=1.4.0"
rand = "=0.8.8"
rusqlite = "=0.31.0"
serde = { version = "=1.0.229", features = ["derive"] }
