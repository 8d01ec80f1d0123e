[package]
name = "wubi"
version = "0.1.0"
edition = "2021"
publish = false

[dependencies]
lazy_static = "1"
phf = "0.11"
phf_generator = "0.11"
