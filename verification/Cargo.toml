[package]
name = "slot_rtp"
version = "0.1.0"
edition = "2021"
publish = false

[dependencies]
itertools = "0.12"
indicatif = "0.17"
serde = { version = "1", features = ["derive"] }
serde_json = "1"
