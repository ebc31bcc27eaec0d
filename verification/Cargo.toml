[package]
name = "pubsub_expect"
version = "0.1.0"
edition = "2021"
publish = false

[dependencies]
anyhow = "1"
base64 = "0.22"
cucumber = "*"
prost-reflect = "*"
prost-types = "*"
serde_json = "1"
zmq = "0.10"
