[package]
name = "mini_lsm"
version = "0.1.0"
edition = "2021"
publish = false

[dependencies]
anyhow = "1"
bytes = "1"
moka = { version = "*", features = ["sync"] }
parking_lot = "0.12"
