[package]
name = "libtw2"
version = "0.1.0"
edition = "2021"
publish = false

[dependencies]
arrayvec = { version = "0.5", features = ["serde"] }
csv = "1"
ipnet = { version = "2", features = ["serde"] }
serde = { version = "1", features = ["derive"] }
serde_json = "1"
uuid = "1"
warn = "*"
