[package]
name = "sync_core"
version = "0.1.0"
edition = "2021"
publish = false

[dependencies]
tokio = { version = "1", features = ["sync", "io-util", "rt", "macros", "time", "rt-multi-thread"] }
uuid = { version = "1", features = ["v4"] }
chrono = "0.4"
security-framework = "2"
