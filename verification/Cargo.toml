[package]
name = "chaingraph"
version = "0.1.0"
edition = "2021"
publish = false

[dependencies]
bitcoin = "0.29"
