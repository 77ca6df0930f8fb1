[package]
name = "polyline"
version = "0.11.0"
edition = "2021"
publish = false

[dependencies]
geo-types = "*"
libc = "*"
