[package]
name = "ferrumc"
version = "0.1.0"
edition = "2021"
publish = false

[dependencies]
serde = { version = "1", features = ["derive"] }
serde_json = "1"
base64 = "0.22"
flexbuffers = "2"
tokio = { version = "1", features = ["full"] }
fastanvil = "*"
fastnbt = "2"
