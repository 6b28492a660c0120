[package]
name = "procedural_towns"
version = "0.1.0"
edition = "2021"
publish = false

[dependencies]
rand = "0.6"
log = "0.4"
env_logger = "0.6"
chrono = "0.4"
