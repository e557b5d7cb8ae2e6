[package]
name = "region_codec"
version = "0.1.0"
edition = "2021"
publish = false

[dependencies]
flate2 = "*"
clap = { version = "*", features = ["derive"] }
tar = "*"
atty = "*"
lru = "*"
