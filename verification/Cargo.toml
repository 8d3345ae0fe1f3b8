[package]
name = "keystats"
version = "0.1.0"
edition = "2021"
publish = false

[dependencies]
atoi_simd = "=0.17.0"
rayon = "=1.12.0"
