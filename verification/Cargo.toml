[package]
name = "softrender"
version = "0.1.0"
edition = "2021"
publish = false

[dependencies]
glam = "=0.34.1"
pixels = "=0.13.0"
win-loop = { version = "=0.10.1", features = ["rwh_05"] }
winit = { version = "=0.30.13", default-features = false, features = ["x11"] }
