[package]
name = "gorilla_skew"
version = "0.1.0"
edition = "2021"
publish = false

[dependencies]
substring = "*"
ndarray = "*"
rand = "*"
round = "*"
