[package]
name = "voxelar"
version = "0.1.0"
edition = "2021"
publish = false

[dependencies]
ash = "=0.37.3"
gl = "=0.14.0"
glfw = { version = "=0.52.0", default-features = false }
gpu-allocator = { version = "0.22", default-features = false, features = ["vulkan"] }
nalgebra = "=0.32.6"
