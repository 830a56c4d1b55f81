[package]
name = "reels_creator"
version = "0.1.0"
edition = "2021"
publish = false

[dependencies]
anyhow = "=1.0.104"
serde_json = "=1.0.154"
walkdir = "=2.5.0"
