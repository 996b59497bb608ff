[package]
name = "notetaker"
version = "0.1.0"
edition = "2021"
publish = false

[dependencies]
ropey = "1"
winit = "0.30"
wgpu = "*"
pollster = "*"
bytemuck = { version = "1", features = ["derive"] }
cosmic-text = "*"
mlua = { version = "*", features = ["lua54", "vendored"] }
thiserror = "*"
env_logger = "*"
