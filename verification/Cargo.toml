[package]
name = "isds"
version = "0.1.0"
edition = "2021"
publish = false

[dependencies]
rand = "0.8"
delaunator = "*"
hex = "0.4"
palette = "0.6"
