[package]
name = "kabina"
version = "0.1.0"
edition = "2021"
publish = false

[dependencies]
anyhow = "1"
clap = { version = "4", features = ["derive"] }
dashmap = "5"
globset = "0.4"
parking_lot = "0.12"
serde = { version = "1", features = ["derive"] }
serde_json = "1"
tokio = { version = "1", features = ["rt", "rt-multi-thread", "process", "sync", "time"] }
tracing = "0.1"
tracing-subscriber = "0.3"
url = "2"
walkdir = "2"
which = "4"
