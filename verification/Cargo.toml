[package]
name = "stt_core"
version = "0.1.0"
edition = "2021"
publish = false

[dependencies]
ort = { version = "=2.0.0-rc.13", features = ["ndarray"] }
ndarray = "=0.16.1"
