[package]
name = "near_proximity"
version = "0.1.0"
edition = "2021"
publish = false

[dependencies]
tinyvec = { version = "*", features = ["alloc"] }
