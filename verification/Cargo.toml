[package]
name = "pool_game"
version = "0.1.0"
edition = "2021"
publish = false

[dependencies]
ggez = { version = "0.9", default-features = false }
mint = "0.5"
rand = "0.8"
