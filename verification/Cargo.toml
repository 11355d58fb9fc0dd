[package]
name = "ai2048_lib"
version = "0.1.0"
edition = "2021"
publish = false

[dependencies]
lazy_static = "1"
lazycell = "1"
rand = "0.7"
