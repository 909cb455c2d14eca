[package]
name = "jumpy_map"
version = "0.1.0"
edition = "2021"
publish = false

[dependencies]
quad-rand = "0.2"
serde = { version = "1", features = ["derive"] }
serde_json = "1"
macroquad = "0.3"
