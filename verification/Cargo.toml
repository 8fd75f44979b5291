[package]
name = "npcs"
version = "0.1.0"
edition = "2021"
publish = false

[dependencies]
uuid = { version = "*", features = ["v5"] }
serde_json = "*"
tokio = { version = "*", features = ["rt", "rt-multi-thread", "net", "time", "io-util", "macros"] }
ureq = "*"
