[package]
name = "warehouse"
version = "0.1.0"
edition = "2021"
publish = false

[dependencies]
serde = { version = "1", features = ["derive"] }
serde_derive = "1"
serde_json = "1"
chrono = "0.4"
env_logger = "0.11"
