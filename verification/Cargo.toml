[package]
name = "care"
version = "0.1.0"
edition = "2021"
publish = false

[dependencies]
anyhow = "*"
cap-std = "*"
clap = { version = "*", features = ["derive"] }
env_logger = "*"
git2 = "*"
log = "*"
path-slash = "*"
unicase = "*"
urlencoding = "*"
