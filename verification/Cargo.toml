[package]
name = "reachcheck"
version = "0.1.0"
edition = "2021"
publish = false

[dependencies]
id-set = "*"
