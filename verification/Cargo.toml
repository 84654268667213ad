[package]
name = "light_epub"
version = "0.1.0"
edition = "2021"
publish = false

[dependencies]
miniz_oxide = "=0.8.9"
quick-xml = "=0.38.4"
serde = { version = "=1.0.229", features = ["derive"] }
