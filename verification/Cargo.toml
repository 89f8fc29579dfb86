[package]
name = "kzg"
version = "0.1.0"
edition = "2021"
publish = false

[dependencies]
fastcrypto = "*"
itertools = "*"
rand = "0.8"
