[package]
name = "glimpse"
version = "0.1.0"
edition = "2021"
publish = false

[dependencies]
bitvec = "1"
blake3 = { version = "1", features = ["rayon"] }
fast-math = "*"
rand = "0.8"
rs_merkle = "1"
serde = { version = "1", features = ["derive"] }
