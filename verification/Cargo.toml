[package]
name = "techtriage"
version = "0.1.0"
edition = "2021"
publish = false

[dependencies]
anyhow = "1"
clap = "4"
log = "0.4"
semver = "1"
serde = { version = "1", features = ["derive"] }
simplelog = "0.12"
toml = "0.8"
