[package]
name = "onsm"
version = "0.1.0"
edition = "2021"
publish = false

[dependencies]
anyhow = "=1.0.104"
clap = { version = "=4.6.7", features = ["derive"] }
env_logger = "=0.11.11"
fs-err = "=3.3.2"
log = "=0.4.34"
needletail = "=0.7.3"
serde = { version = "=1.0.229", features = ["derive"] }
serde_json = "=1.0.154"
sysinfo = "=0.39.6"
which = "=8.0.6"

[dev-dependencies]
paf = "=0.2.1"
