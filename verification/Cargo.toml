[package]
name = "nim_light"
version = "0.1.0"
edition = "2021"
publish = false

[dependencies]
crossterm = "0.29"
rayon = "1"
