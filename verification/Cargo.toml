[package]
name = "reverie"
version = "0.1.0"
edition = "2021"
publish = false

[dependencies]
async-channel = "1"
async-std = "1"
blake3 = { version = "1", features = ["pure"] }
serde = { version = "1", features = ["derive"] }

[dev-dependencies]
rand = "0.8"
