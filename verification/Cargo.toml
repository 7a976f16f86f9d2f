[package]
name = "norimaki_db"
version = "0.1.0"
edition = "2021"
publish = false

[dependencies]
base64 = "0.22"
bincode = "1"
chrono = "0.4"
serde = { version = "1", features = ["derive"] }
serde_json = "1"
