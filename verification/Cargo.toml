[package]
name = "cardkit"
version = "0.1.0"
edition = "2021"
publish = false

[dependencies]
clearscreen = "*"
csv = "1"
rand = "0.8"
