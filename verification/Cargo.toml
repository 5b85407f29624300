[package]
name = "awooter"
version = "0.1.0"
edition = "2021"
publish = false

[dependencies]
colored = "2"
indicatif = { version = "0.17", features = ["rayon"] }
rayon = "1"
