[package]
name = "raytracer"
version = "0.1.0"
edition = "2021"
publish = false

[dependencies]
atomic-counter = "1"
rand = "0.8"
rand_chacha = "0.3"
rayon = "1"
num_cpus = "1"
humantime = "2"
indicatif = "0.17"
image = { version = "0.24", default-features = false, features = ["png"] }
thread-priority = "*"
