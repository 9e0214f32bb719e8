[package]
name = "adscli_core"
version = "0.1.0"
edition = "2021"
publish = false

[dependencies]
anyhow = "*"
bytes = "*"
clap = "*"
env_logger = "*"
log = "*"
prost = "*"
prost-reflect = { version = "*", features = ["serde"] }
reqwest = { version = "*", default-features = false, features = ["rustls-tls"] }
serde = { version = "*", features = ["derive"] }
serde_json = "*"
tokio = { version = "*", features = ["rt-multi-thread", "macros"] }
tonic = "*"
