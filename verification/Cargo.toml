[package]
name = "skiplist"
version = "0.1.0"
edition = "2021"

[dependencies]
rand = { version = "0.7", features = ["small_rng"] }

[dev-dependencies]
testdrop = "*"
