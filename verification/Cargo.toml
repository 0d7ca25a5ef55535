[package]
name = "redis_automerge"
version = "0.1.0"
edition = "2021"
publish = false

[dependencies]
automerge = "=0.12.0"
base64 = "=0.23.1"
