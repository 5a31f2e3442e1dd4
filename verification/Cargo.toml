[package]
name = "planner"
version = "0.1.0"
edition = "2021"
publish = false

[dependencies]
anyhow = "*"
chrono = "*"
clap = { version = "*", features = ["derive"] }
comrak = { version = "*", default-features = false }
dirs = "*"
env_logger = "*"
log = "*"
