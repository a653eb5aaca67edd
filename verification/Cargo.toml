[package]
name = "bevy_cells"
version = "0.1.0"
edition = "2021"
publish = false

[dependencies]
bevy = { version = "=0.11.3", default-features = false }
bimap = "=0.6.3"
