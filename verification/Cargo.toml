[package]
name = "rhwp"
version = "0.1.0"
edition = "2021"
publish = false

[dependencies]
resvg = "=0.49.0"

[dev-dependencies]
cfb = "*"
