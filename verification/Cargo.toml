[package]
name = "coordsfinder"
version = "0.1.0"
edition = "2021"
publish = false

[dependencies]
bytemuck = { version = "=1.25.2", features = ["derive"] }
eframe = { version = "=0.33.3", default-features = false, features = ["default_fonts", "glow", "x11", "wayland"] }
egui = "=0.33.3"
pollster = "=1.0.1"
rfd = "=0.17.2"
wgpu = "=30.0.1"
