[package]
name = "oculante"
version = "0.1.0"
edition = "2021"
publish = false

[dependencies]
image = "0.24"
serde = { version = "1", features = ["derive"] }
serde_json = "1"
anyhow = "1"
dirs = "4"
