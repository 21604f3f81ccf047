[package]
name = "colony"
version = "0.1.0"
edition = "2021"
publish = false

[dependencies]
fnv = "1.0.7"
rand = "0.8"
rayon = "1"
cgmath = "0.18"
winit = "0.28"
