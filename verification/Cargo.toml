[package]
name = "tobytes"
version = "0.1.0"
edition = "2021"
publish = false

[dependencies]
rmp = "*"
rmpv = "*"
ndarray = "*"
ndarray-npy = "*"
