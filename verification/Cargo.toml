[package]
name = "video_palette"
version = "0.1.0"
edition = "2021"
publish = false

[dependencies]
clap = { version = "=4.6.7", features = ["derive"] }
colored = "=2.2.0"
indicatif = "=0.17.11"
kmeans = "=0.2.1"
opencv = "=0.88.9"
palette = "=0.7.7"
