[package]
name = "eco_weave"
version = "0.1.0"
edition = "2021"
publish = false

[dependencies]
ed25519-dalek = { version = "2", features = ["rand_core"] }
rand = "0.8"
serde_json = "1"
tokio = { version = "1", features = ["time", "rt", "macros"] }
futures = "0.3"
