[package]
name = "stackblur_iter"
version = "0.2.0"
edition = "2021"
publish = false

[dependencies]
imgref = "1"
imgref-iter = "*"
blend-srgb = "0.1"
rgb = "0.8"
rayon = "1"
