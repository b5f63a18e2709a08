[package]
name = "kod_core"
version = "0.1.0"
edition = "2021"
publish = false

[dependencies]
tokio = { version = "1", features = ["rt-multi-thread", "time", "sync", "macros"] }
futures = "0.3"
serde = { version = "1", features = ["derive"] }
toml = "0.8"
ron = "0.8"
bincode = "1"
