[package]
name = "dupfinder"
version = "0.1.0"
edition = "2021"
publish = false

[dependencies]
bincode = "1.3"
chrono = "0.4"
clap = { version = "4", features = ["derive"] }
crossterm = "0.28"
dirs = "*"
image = { version = "0.25", default-features = false, features = ["png", "jpeg", "gif", "bmp", "webp"] }
indicatif = "0.17"
ratatui = "0.29"
ratatui-image = { version = "8", default-features = false, features = ["crossterm"] }
rayon = "1"
serde = { version = "1", features = ["derive"] }
walkdir = "2"
xxhash-rust = { version = "0.8", features = ["xxh3"] }
