[package]
name = "pawcontrol"
version = "0.1.0"
edition = "2021"
publish = false

[dependencies]
anyhow = "1"
bytemuck = { version = "1", features = ["derive"] }
egui = "=0.37.0"
egui-winit = { version = "=0.37.0", default-features = false }
egui-wgpu = { version = "=0.37.0", default-features = false }
env_logger = "0.11"
log = "0.4"
nokhwa = { version = "=0.10.11", default-features = false, features = ["input-msmf", "decoding"] }
ort = { version = "=2.0.0-rc.15", default-features = false, features = ["std", "load-dynamic", "directml"] }
pollster = "=1.0.1"
wgpu = "=30.0.1"
winit = "=0.30.13"
