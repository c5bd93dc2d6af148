[package]
name = "udp_chat"
version = "0.1.0"
edition = "2021"
publish = false

[dependencies]
anyhow = "*"
socket2 = "*"
tokio = { version = "*", features = ["full"] }
