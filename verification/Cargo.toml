[package]
name = "ocarina_listener"
version = "0.1.0"
edition = "2021"
publish = false

[dependencies]
json = "0.12"
pitch-detection = "0.3"
cpal = "0.15"
console = "0.15"
image = { version = "0.25", default-features = false, features = ["png"] }
