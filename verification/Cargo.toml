[package]
name = "scene_bench"
version = "0.1.0"
edition = "2021"
publish = false

[dependencies]
argh = "0.1"
bevy = { version = "0.16", default-features = false }
