[package]
name = "graphio_extractor"
version = "0.2.0"
edition = "2021"
publish = false

[dependencies]
clap = "*"
dirs = "*"
image = "*"
serde = { version = "*", features = ["derive"] }
serde_json = "*"
