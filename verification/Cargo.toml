[package]
name = "gugen"
version = "0.1.0"
edition = "2021"
publish = false

[dependencies]
clap = { version = "=4.6.7", features = ["derive"] }
csv = "1"
serde = { version = "=1.0.229", features = ["derive"] }
serde_json = "=1.0.154"
