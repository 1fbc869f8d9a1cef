[package]
name = "pick9"
version = "0.1.0"
edition = "2021"
publish = false

[dependencies]
fastrand = "*"
serde = { version = "*", features = ["derive"] }
serde_json = "*"
log = "*"
env_logger = "*"
actix-web = "*"
actix-rt = "*"
reqwest = { version = "*", features = ["blocking"] }
tokio = { version = "*", features = ["fs", "rt-multi-thread", "macros"] }
