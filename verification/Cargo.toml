[package]
name = "simple_hydrology"
version = "0.1.0"
edition = "2021"
publish = false

[dependencies]
bevy = { version = "=0.17.3", default-features = false, features = ["bevy_asset", "bevy_core_pipeline", "bevy_render", "bevy_sprite", "bevy_sprite_render", "bevy_window", "bevy_winit", "bevy_log", "x11"] }
noise = "=0.9.0"
fastnoise-lite = "=1.1.1"
rand = "=0.8.8"
rayon = "=1.12.0"
num-complex = "=0.4.6"
rustfft = "=6.4.1"
