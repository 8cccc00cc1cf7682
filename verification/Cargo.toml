[package]
name = "rusttracing"
version = "0.1.0"
edition = "2021"
publish = false

[dependencies]
bmp = "0.5"
rand = "0.8"
