[package]
name = "ascii-cam"
version = "0.1.0"
edition = "2021"
publish = false

[dependencies]
anyhow = "1"
axum = "0.8"
clap = { version = "4", features = ["derive"] }
crossterm = "0.29"
flate2 = "1"
futures-util = "0.3"
serde = { version = "1", features = ["derive"] }
tokio = { version = "1", features = ["rt-multi-thread", "net", "sync", "macros"] }
tokio-stream = { version = "0.1", features = ["sync"] }
