[package]
name = "elias_fano"
version = "0.1.0"
edition = "2021"
publish = false

[dependencies]
vortex-buffer = "*"
