[package]
name = "hypors"
version = "0.1.0"
edition = "2021"
publish = false

[dependencies]
statrs = "*"
serde = { version = "*", features = ["derive"] }
