[package]
name = "splat_render"
version = "0.1.0"
edition = "2021"
publish = false

[dependencies]
bincode = { version = "=2.0.0-rc.3", default-features = false }
burn = { version = "=0.13.2", default-features = false, features = ["std", "autodiff"] }
burn-compute = "=0.13.2"
burn-jit = "=0.13.2"
burn-wgpu = "=0.13.2"
glam = "=0.27.0"
tracing = "=0.1.44"
