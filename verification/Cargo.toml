[package]
name = "neuroarena"
version = "0.1.0"
edition = "2021"
publish = false

[dependencies]
bytemuck = { version = "1", features = ["derive"] }
cosmic-text = "*"
log = "0.4"
lyon_tessellation = "*"
pollster = "*"
wgpu = "*"
winit = "0.30"
