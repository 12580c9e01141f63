[package]
name = "necrofactory"
version = "0.1.0"
edition = "2021"
publish = false

[dependencies]
semver = "1"
serde = { version = "1", features = ["derive"] }
toml = "*"
ron = "*"
smallvec = "1"
fixed = "1"
bevy = { version = "0.17", default-features = false }
