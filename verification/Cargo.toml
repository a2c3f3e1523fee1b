[package]
name = "reggy"
version = "0.1.0"
edition = "2021"
publish = false

[dependencies]
regex-automata = "0.4"
regex-syntax = "0.8"
unicode-segmentation = "1"

[dev-dependencies]
rand = { version = "0.8", features = ["small_rng"] }
