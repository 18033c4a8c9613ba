[package]
name = "pitch_trainer"
version = "0.1.0"
edition = "2021"
publish = false

[dependencies]
quick-xml = "*"
serde = { version = "*", features = ["derive"] }
