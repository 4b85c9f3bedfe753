[package]
name = "sigrs"
version = "0.1.0"
edition = "2021"
publish = false

[dependencies]
anyhow = "*"
clap = "*"
memmap2 = "*"
serde_json = "*"
toml = "*"
