[package]
name = "duplicate_encoder"
version = "0.1.0"
edition = "2021"
publish = false

[dependencies]
counter = "*"
itertools = "*"
num-format = "0.4"
rand = "0.8"
rayon = "1"
