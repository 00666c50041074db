[package]
name = "mapgen"
version = "0.1.0"
edition = "2021"
publish = false

[dependencies]
rand = "0.8.5"
chrono = "0.4"
flume = "0.11"
serde = { version = "1", features = ["derive"] }
serde_json = "1"
