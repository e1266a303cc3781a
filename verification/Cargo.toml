[package]
name = "trailscan"
version = "0.1.0"
edition = "2021"
publish = false

[dependencies]
chrono = "*"
clap = { version = "*", features = ["derive"] }
crossbeam-channel = "*"
fast_image_resize = { version = "*", features = ["image"] }
ffmpeg-sidecar = "*"
image = "*"
jpeg-decoder = "*"
ndarray = "*"
nom-exif = "*"
ort = "=2.0.0-rc.13"
rayon = "*"
serde = { version = "*", features = ["derive"] }
serde_json = "*"
walkdir = "*"
