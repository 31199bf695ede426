[package]
name = "shipcat"
version = "0.1.0"
edition = "2021"
publish = false

[dependencies]
semver = "*"
serde = { version = "*", features = ["derive"] }
serde_yaml = "*"
slack-hook = "*"
