[package]
name = "rendy_pbr"
version = "0.1.0"
edition = "2021"
publish = false

[dependencies]
hibitset = "*"
nalgebra = "*"
ron = "*"
serde = { version = "*", features = ["derive"] }
