[package]
name = "rvscw"
version = "0.1.0"
edition = "2021"
publish = false

[dependencies]
base64 = "0.13"
json = "0.12"
uuid = { version = "1", features = ["v4"] }
clap = { version = "4", features = ["derive"] }
