[package]
name = "music_clip"
version = "0.1.0"
edition = "2021"
publish = false

[dependencies]
az = "1"
gdnative = "0.11"
