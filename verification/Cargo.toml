[package]
name = "lapce-collab"
version = "0.1.0"
edition = "2021"
publish = false

[dependencies]
rust_decimal = "1"
serde = { version = "1", features = ["derive"] }
serde_json = "1"
tokio = { version = "1", features = ["rt-multi-thread", "macros"] }
tokio-tungstenite = "*"
futures = "0.3"
futures-util = "0.3"
url = "2"
reqwest = { version = "0.11", default-features = false, features = ["json"] }
clipboard = "0.5"
