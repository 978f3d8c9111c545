[package]
name = "duckforge"
version = "0.1.0"
edition = "2021"
publish = false

[dependencies]
minifb = "*"
wgpu = "*"
bytemuck = { version = "*", features = ["derive"] }
pollster = "*"
