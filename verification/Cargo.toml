[package]
name = "ferret"
version = "0.1.0"
edition = "2021"
publish = false

[dependencies]
sha2 = "*"
fuzzy-matcher = "*"
clap = { version = "*", features = ["derive"] }
serde = { version = "*", features = ["derive"] }
serde_json = "*"
walkdir = "*"
