[package]
name = "index_lifecycle"
version = "0.1.0"
edition = "2021"
publish = false

[dependencies]
uuid = { version = "1", features = ["v4"] }
time = "0.3"
roaring = "0.10"
serde = { version = "1", features = ["derive"] }
serde_json = "1"
