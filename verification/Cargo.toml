[package]
name = "project_reindeer"
version = "0.1.0"
edition = "2021"
publish = false

[dependencies]
godot = "0.4"
strum = { version = "0.27", features = ["derive"] }
clap = { version = "4", features = ["derive"] }
serde = { version = "1", features = ["derive"] }
toml = "0.8"
walkdir = "2"
in-place = "0.2"
