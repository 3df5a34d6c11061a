[package]
name = "perry_fastify"
version = "0.1.0"
edition = "2021"
publish = false

[dependencies]
serde_json = "1"
socket2 = { version = "0.5", features = ["all"] }
libc = "0.2"
