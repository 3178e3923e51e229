[package]
name = "ptt"
version = "0.1.0"
edition = "2021"
publish = false

[dependencies]
atty = "0.2.14"
core-graphics = "0.25.0"
ctrlc = "3.5.2"
dialoguer = "0.12.0"
serde_json = "1.0.154"
tokio = { version = "1.54.1", features = ["rt", "time", "net"] }
