[package]
name = "sorcerers"
version = "0.1.0"
edition = "2021"
publish = false

[dependencies]
uuid = { version = "1", features = ["v4", "serde"] }
rand = "0.9"
serde = { version = "1", features = ["derive"] }
serde_json = "1"
anyhow = "1"
