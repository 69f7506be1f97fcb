[package]
name = "stucrs"
version = "0.1.0"
edition = "2021"
publish = false

[dependencies]
ndarray = "*"
ndarray-rand = "*"
num-traits = "*"
