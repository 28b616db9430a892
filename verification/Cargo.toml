[package]
name = "lid"
version = "0.1.0"
edition = "2021"
publish = false

[dependencies]
rand = "0.8"
spin = "0.9"
lazy_static = "1"
