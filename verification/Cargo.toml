[package]
name = "strawboat"
version = "0.1.0"
edition = "2021"
publish = false

[dependencies]
bitpacking = "0.8"
rand = "0.8"
