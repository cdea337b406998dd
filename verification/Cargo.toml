[package]
name = "easy_map"
version = "0.1.0"
edition = "2021"
publish = false

[dependencies]
ahash = "=0.8.12"

[dev-dependencies]
rand = "=0.8.8"
rand_chacha = "=0.3.1"
