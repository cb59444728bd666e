[package]
name = "numgrid"
version = "0.1.0"
edition = "2021"
publish = false

[dependencies]
rayon = "=1.12.0"
wolfram-library-link = { version = "=0.6.1", default-features = false }
