[package]
name = "blocksy3"
version = "0.1.0"
edition = "2021"
publish = false

[dependencies]
anyhow = "1"
async-channel = "1"
bincode = "1"
futures = "0.3"
serde = { version = "1", features = ["derive"] }
toml = "0.5"
