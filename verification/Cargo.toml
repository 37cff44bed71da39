[package]
name = "pathfinder"
version = "0.1.0"
edition = "2021"
publish = false

[dependencies]
byteorder = "1"
euclid = "*"
image = { version = "*", default-features = false, features = ["png"] }
