[package]
name = "atomic_universe"
version = "0.1.0"
edition = "2021"
publish = false

[dependencies]
pixels = "*"
rand = "*"
winit = "*"
