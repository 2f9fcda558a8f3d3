[package]
name = "rust2vec"
version = "0.1.0"
edition = "2021"
publish = false

[dependencies]
byteorder = "1"
failure = "0.1"
fnv = "1"
ndarray = "0.15"
toml = "0.5"
