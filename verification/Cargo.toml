[package]
name = "icy_sixel"
version = "0.5.0"
edition = "2021"
publish = false

[dependencies]
quantette = "*"
