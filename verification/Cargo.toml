[package]
name = "juggl"
version = "0.1.0"
edition = "2021"
publish = false

[dependencies]
hashed-permutation = "*"
rand = "*"
rayon = "*"
clap = { version = "*", features = ["derive"] }
memmap2 = "*"
