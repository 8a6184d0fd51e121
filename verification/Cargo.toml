[package]
name = "brstm"
version = "0.1.0"
edition = "2021"
publish = false

[dependencies]
anyhow = "1"
env_logger = "0.11"
hound = "3.5"
log = "0.4"
