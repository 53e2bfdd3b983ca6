[package]
name = "lau-stochastic-geometry"
version = "0.1.0"
edition = "2021"
publish = false

[dependencies]
rand = "0.8"
rand_distr = "0.4"
nalgebra = "0.32"
serde = { version = "1", features = ["derive"] }
