[package]
name = "pixel_art_rust"
version = "0.1.0"
edition = "2021"
publish = false

[dependencies]
rayon = "*"
image = { version = "*", default-features = false, features = ["png", "jpeg"] }
clap = { version = "*", features = ["derive"] }
anyhow = "*"
indicatif = "*"
palette = "*"
