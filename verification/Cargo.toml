[package]
name = "supplychain"
version = "0.1.0"
edition = "2021"
publish = false

[dependencies]
serde = { version = "1", features = ["derive"] }
serde_json = "1"
sha2 = "0.10"
hex = "0.4"
chrono = "0.4"
redis = "*"
bincode = "1"
libp2p = { version = "0.53", features = ["gossipsub", "mdns", "noise", "tcp", "yamux", "tokio", "macros", "ed25519"] }
tokio = { version = "1", features = ["full"] }
futures = "0.3"
log = "0.4"
pretty_env_logger = "0.5"
rand = "0.8"
