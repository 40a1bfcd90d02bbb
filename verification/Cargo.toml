[package]
name = "sam"
version = "0.1.0"
edition = "2021"
publish = false

[dependencies]
clap = "*"
humantime = "*"
log = "*"
parking_lot = "*"
pretty_env_logger = "*"
rand = "*"
regex = "*"
reqwest = { version = "*", default-features = false }
serde = { version = "*", features = ["derive"] }
serde_json = "*"
serde_yaml = "*"
similar-asserts = "*"
tempdir = "*"
tokio = { version = "*", features = ["full"] }
toml = "*"
