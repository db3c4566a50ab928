[package]
name = "psva4_model"
version = "0.1.0"
edition = "2021"
publish = false

[dependencies]
nalgebra = { version = "*", features = ["serde-serialize"] }
serde = { version = "1", features = ["derive"] }
serde_json = "1"
serde_with = "3"
