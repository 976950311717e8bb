[package]
name = "nmp-engine"
version = "0.1.0"
edition = "2021"
publish = false

[dependencies]
blake3 = "=1.8.7"
nostr = { version = "0.44", features = ["std"] }
