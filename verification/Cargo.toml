[package]
name = "magpie"
version = "0.1.0"
edition = "2021"
publish = false

[dependencies]
ciborium = "0.2"
env_logger = "0.10"
failure = "0.1"
log = "0.4"
serde = { version = "1", features = ["derive"] }
serde_bytes = "0.11"
xdg = "2"
