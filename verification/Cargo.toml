[package]
name = "emjson"
version = "0.1.0"
edition = "2021"
publish = false

[dependencies]
embedded-io = "*"

[dev-dependencies]
serde_json = "1"
