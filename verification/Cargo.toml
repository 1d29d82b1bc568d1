[package]
name = "radarsim"
version = "0.1.0"
edition = "2021"
publish = false

[dependencies]
bevy = { version = "=0.17.3", default-features = false, features = ["bevy_sprite_render", "bevy_gizmos", "bevy_window", "bevy_core_pipeline", "bevy_render", "bevy_asset", "std"] }
nalgebra = "0.34"
rand = "0.9"
rand_distr = "0.5"
