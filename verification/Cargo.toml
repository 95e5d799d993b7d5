[package]
name = "voxel_engine"
version = "0.1.0"
edition = "2021"
publish = false

[dependencies]
anyhow = "1"
bytemuck = { version = "1", features = ["derive"] }
cgmath = "0.18"
env_logger = "0.11"
fastnoise-lite = "1"
futures = "0.3"
image = { version = "0.25", default-features = false, features = ["png"] }
log = "0.4"
rand = "0.8"
rayon = "1"
rustc-hash = "2"
serde = { version = "1", features = ["derive"] }
serde_json = "1"
wgpu = "25"
winit = "0.29"
