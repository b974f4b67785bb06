[package]
name = "offroad"
version = "0.1.0"
edition = "2021"
publish = false

[dependencies]
togo = "*"
aabb = "*"
robust = "*"
geom = "*"
lazy_static = "*"
