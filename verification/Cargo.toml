[package]
name = "pak_engine"
version = "0.1.0"
edition = "2021"
publish = false

[dependencies]
walkdir = "*"
rayon = "*"
