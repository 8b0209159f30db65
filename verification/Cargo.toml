[package]
name = "rustorcli"
version = "0.1.0"
edition = "2021"
publish = false

[dependencies]
rust-crypto = "0.2.36"
ring = "0.16"
serde_bencode = "0.2"
percent-encoding = "2.1"
rand = "0.7"
dirs = "2"
serde = { version = "1", features = ["derive"] }
serde_json = "1"
serde_bytes = "0.11"
hex = "0.4"
log = "0.4"
env_logger = "0.7"
clap = "2.33"
nix = "0.17"
daemonize = "0.4"
sysinfo = "0.15"
reqwest = { version = "0.9", default-features = false }
