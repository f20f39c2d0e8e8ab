[package]
name = "bson"
version = "0.1.0"
edition = "2021"
publish = false

[dependencies]
serde = { version = "1", features = ["derive"] }
serde_with = "3"
chrono = "0.4"
time = { version = "0.3", features = ["formatting", "parsing"] }
uuid = "1"
