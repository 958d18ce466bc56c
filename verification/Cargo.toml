[package]
name = "pkgar"
version = "0.1.0"
edition = "2021"
publish = false

[dependencies]
blake3 = { version = "0.3", features = ["rayon"] }
