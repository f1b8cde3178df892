[package]
name = "pqcutils"
version = "0.1.0"
edition = "2021"
publish = false

[dependencies]
etherparse = "*"
linked_hash_set = "*"
log = "*"
env_logger = "*"
clap = { version = "4", features = ["derive"] }
chrono = "*"
serde = { version = "1", features = ["derive"] }
serde_json = "1"
tera = "1"
pcap = "*"
anyhow = "1"
