[package]
name = "laszy"
version = "0.1.0"
edition = "2021"
publish = false

[dependencies]
las = "=0.8.8"
rand = "=0.8.8"
ndarray = "=0.15.6"
indicatif = "=0.17.11"
derive_more = "=0.99.20"
