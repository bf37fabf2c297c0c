[package]
name = "rs-vulkan"
version = "0.1.0"
edition = "2021"
publish = false

[dependencies]
bytemuck = { version = "1", features = ["derive"] }
half = "2"
image = { version = "0.25", default-features = false, features = ["png"] }
rand = "0.8"
smallvec = "1"
vulkano = "0.35"
vulkano-shaders = "0.35"
winit = "0.30"
