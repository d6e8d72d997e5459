[package]
name = "whisrs"
version = "0.1.0"
edition = "2021"
publish = false

[dependencies]
anyhow = "1"
cpal = "0.15"
evdev = { version = "0.12", features = ["tokio"] }
hound = "3.5"
serde_json = "1"
tokio = { version = "1", features = ["rt", "sync", "time"] }
tracing = "0.1"
