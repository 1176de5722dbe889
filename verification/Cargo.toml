[package]
name = "vibe_golf"
version = "0.1.0"
edition = "2021"
publish = false

[dependencies]
image = { version = "0.25", default-features = false, features = ["png"] }
noise = "0.9"
futures-lite = "2"
