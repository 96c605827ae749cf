[package]
name = "shiftinclude"
version = "0.1.0"
edition = "2021"
publish = false

[dependencies]
anyhow = "1"
clap = "2"
env_logger = "0.10"
log = "0.4"
mdbook = { version = "0.4", default-features = false }
serde_json = "1"
