[package]
name = "videoscribe"
version = "0.1.0"
edition = "2021"
publish = false

[dependencies]
dirs = "6"
hound = "3"
serde = { version = "1", features = ["derive"] }
tokio = { version = "1", features = ["rt", "fs", "io-util"] }
futures-util = "0.3"
reqwest = { version = "0.12", default-features = false, features = ["stream", "rustls-tls"] }
whisper-rs = "0.15"
