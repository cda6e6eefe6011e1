[package]
name = "strpool"
version = "0.1.0"
edition = "2021"
publish = false

[dependencies]
cityhasher = "*"
serde = { version = "*", features = ["derive"] }
serde_json = "*"
