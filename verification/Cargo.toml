[package]
name = "consensus_core"
version = "0.1.0"
edition = "2021"
publish = false

[dependencies]
fastcrypto = "=0.1.11"
tokio = { version = "=1.53.2", default-features = false, features = ["sync"] }

[dev-dependencies]
rand = "=0.8.8"
