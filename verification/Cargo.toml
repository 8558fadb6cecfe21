[package]
name = "banter"
version = "0.1.0"
edition = "2021"
publish = false

[dependencies]
bytes = "1"
rand = "0.8"
base64 = "0.13"
tokio = { version = "1", features = ["full"] }
clap = "2.34"
