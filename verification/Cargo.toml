[package]
name = "usage-monitor"
version = "0.2.0"
edition = "2021"
publish = false

[dependencies]
chrono = "0.4"
serde = { version = "1", features = ["derive"] }
serde_json = "1"
dirs = "6"
glob = "0.3"
tokio = { version = "1", features = ["rt", "time", "macros"] }
reqwest = { version = "0.12", default-features = false, features = ["json", "rustls-tls"] }
