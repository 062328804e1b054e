[package]
name = "kirum"
version = "0.1.0"
edition = "2021"
publish = false

[dependencies]
unicode-segmentation = "*"
rand = "*"
regex = "*"
rhai = "*"
serde = { version = "*", features = ["derive"] }
serde_json = "*"
clap = { version = "*", features = ["derive"] }
walkdir = "*"
anyhow = "*"
toml = "*"

[dev-dependencies]
tempfile = "*"
