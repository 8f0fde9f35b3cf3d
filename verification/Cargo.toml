[package]
name = "wgpu_tensor"
version = "0.1.0"
edition = "2021"
publish = false

[dependencies]
wgpu = "*"
bytemuck = { version = "*", features = ["derive"] }
crossbeam-channel = "*"
