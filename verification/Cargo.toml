[package]
name = "ensodb"
version = "0.1.0"
edition = "2021"

[dependencies]
lru = "*"
chrono = "0.4"
serde = { version = "1", features = ["derive"] }
serde_json = "1"
bincode = "1.3"
rustyline = "*"
