[package]
name = "yuri_rewrite"
version = "0.1.0"
edition = "2021"
publish = false

[dependencies]
serde_json = "=1.0.154"
regex = "=1.13.1"
sha2 = "=0.10.9"
serde = { version = "=1.0.229", features = ["derive"] }
chrono = "=0.4.45"
uuid = { version = "=1.29.0", features = ["v4"] }
tokio = { version = "=1.54.1", features = ["rt", "sync", "time", "macros"] }
futures-util = "=0.3.34"
rusqlite = { version = "=0.32.1", features = ["bundled"] }
