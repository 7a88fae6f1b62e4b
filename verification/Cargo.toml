[package]
name = "galaxy_sim"
version = "0.1.0"
edition = "2021"
publish = false

[dependencies]
fastrand = "2"
rayon = "1"
ultraviolet = "0.9"
