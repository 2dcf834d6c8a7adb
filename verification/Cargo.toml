[package]
name = "graphrs"
version = "0.1.0"
edition = "2021"
publish = false

[dependencies]
anyhow = "1"
dot-writer = "*"
