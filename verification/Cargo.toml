[package]
name = "kumiko"
version = "0.1.0"
edition = "2021"
publish = false

[dependencies]
geo = "*"
geo-types = "*"
geo-clipper = "*"
geo-svg = "*"
itertools = "*"
