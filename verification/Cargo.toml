[package]
name = "mc_link"
version = "0.2.8"
edition = "2021"
publish = false

[dependencies]
aes = "=0.8.4"
cipher = "=0.4.4"
sha2 = "=0.10.9"
rand = "=0.8.8"
uuid = { version = "=1.29.0", features = ["v4"] }
serde = { version = "=1.0.229", features = ["derive"] }
serde_json = "=1.0.154"
serde_yaml = "=0.9.34"
local-ip-address = "=0.6.13"
uapi-sdk-rust = "=0.1.17"
tokio = { version = "=1.54.1", features = ["rt", "net", "time"] }
