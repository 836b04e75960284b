[package]
name = "watershed"
version = "0.1.0"
edition = "2021"
publish = false

[dependencies]
ndarray = { version = "0.15", features = ["rayon"] }
num-traits = "0.2"
rand = "0.8"
rayon = "1"
indicatif = "0.17"
plotters = { version = "0.3", default-features = false, features = ["bitmap_backend", "bitmap_encoder"] }
