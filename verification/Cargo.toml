[package]
name = "hwboard"
version = "0.1.0"
edition = "2021"
publish = false

[dependencies]
serde = { version = "=1.0.229", features = ["derive"] }
postcard = { version = "=1.1.3", features = ["alloc"] }
dirs = "=7.0.0"
bytemuck = { version = "=1.25.2", features = ["derive"] }
pollster = "=1.0.1"
image = { version = "=0.25.10", default-features = false, features = ["png", "bmp", "webp", "jpeg", "gif"] }
sdl3 = { version = "=0.22.0", features = ["raw-window-handle"] }
wgpu = "=30.0.1"
