[package]
name = "game_replication"
version = "0.1.0"
edition = "2021"
publish = false

[dependencies]
bevy = { version = "0.13", default-features = false }
bevy_renet = "0.0.11"
renet = "0.0.15"
fastrand = "2"

[dev-dependencies]
bincode = "1.3"
serde = "1"
