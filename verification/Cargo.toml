[package]
name = "crates_dependency_network"
version = "0.1.0"
edition = "2021"
publish = false

[dependencies]
anyhow = "1"
clap = { version = "4", features = ["derive"] }
csv = "1"
semver = "1"
serde = { version = "1", features = ["derive"] }
serde_json = "1"
walkdir = "2"
