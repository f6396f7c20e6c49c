[package]
name = "in1weekend"
version = "0.1.0"
edition = "2021"
publish = false

[dependencies]
rand = "0.8"
image = { version = "0.24", default-features = false, features = ["png"] }
nalgebra = "0.30"
ncollide3d = "0.33"
palette = "0.6"
noise = "0.8"
indicatif = "0.17"
rayon = "1"
clap = "2"
failure = "0.1"
