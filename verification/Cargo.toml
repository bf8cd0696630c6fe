[package]
name = "project_tomoyo"
version = "0.1.0"
edition = "2021"
publish = false

[dependencies]
rand = "0.8"
serde = { version = "1", features = ["derive"] }
serde_json = "1"
csv = "1"
ws = "0.9"
env_logger = "0.10"
