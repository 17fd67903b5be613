[package]
name = "duplicate_finder"
version = "0.1.0"
edition = "2021"
publish = false

[dependencies]
md-5 = "*"
hex = "*"
image = "*"
image_hasher = "*"
serde = { version = "*", features = ["derive"] }
serde_json = "*"
clap = { version = "*", features = ["derive"] }
dirs = "*"
walkdir = "*"
rayon = "*"
ffmpeg-next = "*"
