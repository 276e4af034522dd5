[package]
name = "reptree"
version = "0.1.0"
edition = "2021"
publish = false

[dependencies]
lru = "*"
uuid = { version = "*", features = ["v4"] }
rusqlite = { version = "*", features = ["bundled"] }
serde_json = "*"
