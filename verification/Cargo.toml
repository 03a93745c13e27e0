[package]
name = "crc32_inversion"
version = "0.1.0"
edition = "2021"
publish = false

[dependencies]
anyhow = "1"
crc32fast = "1"
rayon = "1"
indicatif = { version = "*", features = ["rayon"] }
