[package]
name = "grid_rs"
version = "0.1.0"
edition = "2021"
publish = false

[dependencies]
rand = "*"
gust = "*"
image = "*"
bresenham = "*"
line-rs = "*"
