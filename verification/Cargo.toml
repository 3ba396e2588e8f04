[package]
name = "lruk"
version = "0.1.0"
edition = "2021"

[dependencies]
lru = "*"
