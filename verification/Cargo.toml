[package]
name = "gravity"
version = "0.1.0"
edition = "2021"
publish = false

[dependencies]
bytemuck = { version = "1", features = ["derive"] }
rand = "0.8"
thiserror = "1"
macroquad = { version = "0.4", default-features = false }
pollster = "0.3"
rustacuda = "0.1"
wgpu = { version = "0.19", default-features = false, features = ["wgsl"] }
