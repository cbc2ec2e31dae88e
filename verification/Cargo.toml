[package]
name = "multi_vector"
version = "0.1.0"
edition = "2021"
publish = false

[dependencies]
bumpy_vector = "*"
serde = { version = "*", features = ["derive"] }
