[package]
name = "ecosystem_sim"
version = "0.1.0"
edition = "2021"
publish = false

[dependencies]
bevy = { version = "0.8", default-features = false, features = ["bevy_asset", "bevy_winit", "bevy_render", "bevy_core_pipeline", "bevy_sprite", "png", "x11"] }
perlin_noise = "*"
rand = "0.8"
strum = "0.24"
strum_macros = "0.24"
