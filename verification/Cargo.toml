[package]
name = "dupfinder"
version = "0.1.0"
edition = "2021"
publish = false

[dependencies]
md5 = "0.7"
walkdir = "2"
rayon = "1"
indicatif = { version = "0.17", features = ["rayon"] }
polars = { version = "*", default-features = false, features = ["csv"] }
