[package]
name = "side_stacker"
version = "0.1.0"
edition = "2021"
publish = false

[dependencies]
moka = "0.9"
rand = "0.8"
