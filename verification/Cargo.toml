[package]
name = "chessbot"
version = "0.1.0"
edition = "2021"
publish = false

[dependencies]
cozy-chess = "0.3"
rand = "0.9"
rayon = "1"
lazy_static = "1"
pyo3 = "0.20"
