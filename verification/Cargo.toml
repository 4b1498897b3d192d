[package]
name = "xenwooting"
version = "0.1.0"
edition = "2021"
publish = false

[dependencies]
alsa = "0.9"
anyhow = "1"
crossbeam-channel = "0.5"
env_logger = "0.11"
libc = "0.2"
log = "0.4"
serde = { version = "1", features = ["derive"] }
serde_json = "1"
toml = "0.8"
wooting-analog-common = "*"
