[package]
name = "just"
version = "0.1.0"
edition = "2021"
publish = false

[dependencies]
legion = "0.2"
glam = "0.20"
serde = { version = "1", features = ["derive"] }
ron = "0.7"
