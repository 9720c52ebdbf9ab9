[package]
name = "rkvr"
version = "0.1.0"
edition = "2021"
publish = false

[dependencies]
atty = "*"
chrono = "*"
clap = { version = "*", features = ["derive"] }
colored = "*"
configparser = "*"
dirs = "*"
env_logger = "*"
eyre = "*"
fuzzy-matcher = "*"
libc = "*"
log = "*"
serde = { version = "*", features = ["derive"] }
serde_yaml = "*"
which = "*"
