[package]
name = "srdb"
version = "0.1.0"
edition = "2021"
publish = false

[dependencies]
bimap = "*"
bit-vec = "*"
