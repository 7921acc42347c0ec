[package]
name = "metro_map_editor"
version = "0.1.0"
edition = "2021"
publish = false

[dependencies]
itertools = "=0.13.0"
serde = { version = "=1.0.229", features = ["derive"] }
serde_json = "1"
