[package]
name = "ttr"
version = "0.1.0"
edition = "2021"
publish = false

[dependencies]
anyhow = "1"
clap = { version = "4", features = ["derive"] }
crossterm = "0.28"
ctrlc = "3"
dirs = "5"
nix = { version = "0.29", features = ["signal"] }
serde = { version = "1", features = ["derive"] }
serde_yaml = "0.9"
