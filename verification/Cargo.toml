[package]
name = "etagere"
version = "0.1.0"
edition = "2021"
publish = false

[dependencies]
euclid = "0.22"
svg_fmt = "0.4"
serde = { version = "1", features = ["derive"] }
ron = "0.8"
clap = "2"
