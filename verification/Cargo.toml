[package]
name = "anysocket"
version = "0.1.0"
edition = "2021"
publish = false

[dependencies]
pin-project = "1"
serde = "1"
tokio = { version = "1", features = ["io-util", "net", "rt"] }
