[package]
name = "blockchain"
version = "0.1.0"
edition = "2021"
publish = false

[dependencies]
sha2 = "0.10"
chrono = { version = "0.4", default-features = false, features = ["clock"] }
tokio = { version = "1", features = ["rt-multi-thread", "macros", "fs", "io-util", "io-std", "sync", "time"] }
futures = "0.3"
async-std = "1"
libp2p = { version = "0.57", features = ["tokio", "tcp", "noise", "yamux", "gossipsub", "mdns", "kad", "macros"] }
log = "0.4"
pretty_env_logger = "0.4"

[dev-dependencies]
speedy = "0.8"
