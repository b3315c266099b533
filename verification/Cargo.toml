[package]
name = "game_2048"
version = "0.1.0"
edition = "2021"
publish = false

[dependencies]
rand = "=0.8.8"
bevy = { version = "=0.9.1", default-features = false, features = ["bevy_winit", "x11", "render", "bevy_asset", "bevy_sprite", "bevy_text", "bevy_core_pipeline"] }
