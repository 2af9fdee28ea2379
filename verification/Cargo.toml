[package]
name = "log_maintenance"
version = "0.1.0"
edition = "2021"
publish = false

[dependencies]
dirs = "*"
serde = "*"
serde_derive = "*"
toml = "*"
walkdir = "*"
