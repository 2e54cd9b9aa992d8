[package]
name = "emojis"
version = "0.1.0"
edition = "2021"
publish = false

[dependencies]
strsim = "*"
curl = "*"
serde = { version = "*", features = ["derive"] }
serde_json = "*"
