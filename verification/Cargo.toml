[package]
name = "identity_bridge"
version = "0.1.0"
edition = "2021"
publish = false

[dependencies]
sp-core = "*"
sp-crypto-hashing = "*"
tokio = { version = "*", features = ["rt-multi-thread", "macros", "time"] }
log = "*"
env_logger = "*"
anyhow = "*"
