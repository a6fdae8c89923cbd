[package]
name = "bevy_pixel_world"
version = "0.1.0"
edition = "2021"
publish = false

[dependencies]
lz4_flex = "=0.11.6"
serde = { version = "=1.0.229", features = ["derive"] }
toml = "=0.8.23"
dirs = "=5.0.1"
palette = "=0.7.7"
rayon = "=1.12.0"
spade = "2"
