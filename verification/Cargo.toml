[package]
name = "ant_invaders"
version = "0.1.0"
edition = "2021"
publish = false

[dependencies]
bevy = { version = "0.8", default-features = false, features = ["render", "bevy_winit", "bevy_asset", "png", "x11"] }
rand = "0.8"
