[package]
name = "mongrel2"
version = "0.1.0"
edition = "2021"
publish = false

[dependencies]
serde_json = "*"
zmq = { version = "*", features = ["vendored"] }
