[package]
name = "devsync"
version = "0.1.0"
edition = "2021"
publish = false

[dependencies]
uuid = { version = "*", features = ["v4"] }
clap = "*"
mime_guess = "*"
serde_json = "*"
