[package]
name = "simn_sim"
version = "0.1.0"
edition = "2021"
publish = false

[dependencies]
anyhow = "1"
bevy_ecs = "*"
bincode = "1"
blake3 = "1"
crc32fast = "1"
crossbeam-channel = "0.5"
include_dir = "0.7"
pathfinding = "4"
rand = "0.8"
rand_chacha = { version = "0.3", features = ["serde1"] }
serde = { version = "1", features = ["derive"] }
toml = "0.8"
tracing = "0.1"
