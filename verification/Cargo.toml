[package]
name = "cyber_heist"
version = "0.1.0"
edition = "2021"
publish = false

[dependencies]
rand = "0.9"
serde = { version = "1", features = ["derive"] }
ron = "0.8"
godot = "0.5"
