[package]
name = "smart_copy"
version = "0.1.0"
edition = "2021"
publish = false

[dependencies]
anyhow = "=1.0.104"
futures = "=0.3.34"
postcard = { version = "1", features = ["use-std"] }
serde = { version = "1", features = ["derive"] }
tokio = { version = "=1.54.1", features = ["fs", "rt", "macros", "sync"] }
tokio-stream = { version = "=0.1.19", features = ["fs"] }
