[package]
name = "raytracer"
version = "0.1.0"
edition = "2021"
publish = false

[dependencies]
bytemuck = "1"
rand = "0.8"
winit = { version = "0.29", default-features = false, features = ["rwh_06", "x11"] }
image = { version = "0.24", default-features = false, features = ["png"] }
pollster = "0.3"
env_logger = { version = "0.11", default-features = false }
