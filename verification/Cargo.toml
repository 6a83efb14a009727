[package]
name = "hilbert_maze"
version = "0.1.0"
edition = "2021"
publish = false

[dependencies]
disjoint = "*"
hilbert = "*"
image = { version = "*", default-features = false, features = ["png"] }
num = "*"
rand = "0.8"
