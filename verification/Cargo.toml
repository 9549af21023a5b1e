[package]
name = "reftar"
version = "0.1.0"
edition = "2021"
publish = false

[dependencies]
anyhow = "*"
clap = { version = "*", features = ["derive"] }
crc32fast = "*"
nix = { version = "*", features = ["fs", "user"] }
