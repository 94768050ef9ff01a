[package]
name = "voxel_world"
version = "0.1.0"
edition = "2021"
publish = false

[dependencies]
bevy = { version = "0.18", default-features = false, features = ["bevy_pbr", "bevy_winit", "x11", "multi_threaded"] }
futures-lite = "2"
