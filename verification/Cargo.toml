[package]
name = "leaf"
version = "0.1.0"
edition = "2021"
publish = false

[dependencies]
base64 = "=0.23.1"
regex-syntax = "=0.8.11"
scraper = "=0.29.0"
serde = { version = "=1.0.229", features = ["derive"] }
serde_json = "=1.0.154"
rusqlite = "=0.41.1"
chrono = "=0.4.45"
directories = "=6.0.0"
walkdir = "=2.5.0"
notify = "=8.2.1"
uuid = { version = "=1.29.0", features = ["v4"] }
once_cell = "=1.21.4"

[dev-dependencies]
regex = "1"
