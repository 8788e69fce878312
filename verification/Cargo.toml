[package]
name = "spatial_grid"
version = "0.1.0"
edition = "2021"

[dependencies]
libm = "0.2"

[dev-dependencies]
rand = "0.8"
