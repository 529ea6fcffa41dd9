[package]
name = "ext_core"
version = "0.1.0"
edition = "2021"
publish = false

[dependencies]
chrono = { version = "=0.4.45", features = ["serde"] }
serde = { version = "=1.0.229", features = ["derive"] }
tokio = { version = "=1.53.2", features = ["sync", "rt", "macros"] }
ts-rs = "=12.0.1"
uuid = { version = "=1.27.0", features = ["v4", "serde"] }
