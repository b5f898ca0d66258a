[package]
name = "goto"
version = "0.3.0"
edition = "2021"
publish = false

[dependencies]
ignore = "0.4"
