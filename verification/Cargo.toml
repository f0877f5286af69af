[package]
name = "pulse"
version = "0.1.0"
edition = "2021"
publish = false

[dependencies]
glam = "*"
nohash = "*"
winit = "0.29"
