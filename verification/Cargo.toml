[package]
name = "bird_protocol"
version = "0.1.0"
edition = "2021"
publish = false

[dependencies]
serde = "*"
serde_json = "*"
fastnbt = "*"
cubic-chat = "*"
uuid = "*"
euclid = "*"
