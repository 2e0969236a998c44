[package]
name = "satire"
version = "0.1.0"
edition = "2021"
publish = false

[dependencies]
anyhow = "1"
log = "0.4"
pretty_env_logger = "0.5"
rand = "0.8"
typed-index-collections = "3"
