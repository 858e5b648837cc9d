[package]
name = "http_collector"
version = "0.1.0"
edition = "2021"
publish = false

[dependencies]
clap = "2.34"
serde = { version = "1", features = ["derive"] }
serde_json = "1"
