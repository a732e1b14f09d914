[package]
name = "qcu"
version = "0.1.0"
edition = "2021"
publish = false

[dependencies]
anyhow = "*"
bitvec = "*"
clap = { version = "*", features = ["derive"] }
rayon = "*"
