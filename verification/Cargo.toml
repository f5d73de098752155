[package]
name = "dragon_curve"
version = "0.1.0"
edition = "2021"
publish = false

[dependencies]
gif = "0.14"
nannou = "0.19"
