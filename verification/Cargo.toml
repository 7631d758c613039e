[package]
name = "tile_collapse"
version = "0.1.0"
edition = "2021"
publish = false

[dependencies]
clap = { version = "3", features = ["derive"] }
image = { version = "0.24", default-features = false, features = ["png", "bmp"] }
indicatif = "0.17"
rand = "0.8"
rand_chacha = "0.3"
serde = { version = "1", features = ["derive"] }
toml = "0.5"
