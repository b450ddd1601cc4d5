[package]
name = "dan_consensus"
version = "0.1.0"
edition = "2021"
publish = false

[dependencies]
tari_crypto = "=0.17.0"
digest = "=0.9.0"
serde = { version = "1", features = ["derive"] }
serde_with = "*"
clap = { version = "*", features = ["derive"] }
chrono = "*"
anyhow = "*"
thiserror = "*"
tokio = { version = "*", features = ["rt", "time", "sync", "macros"] }
futures = "*"
log = "*"
borsh = "*"
