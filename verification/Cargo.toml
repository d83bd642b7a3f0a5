[package]
name = "tileworld"
version = "0.1.0"
edition = "2021"
publish = false

[dependencies]
serde = { version = "1", features = ["derive"] }
bincode = "1"
crossbeam-channel = "0.5"
lazy_static = "1"
