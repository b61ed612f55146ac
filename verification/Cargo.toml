[package]
name = "exocortex"
version = "0.1.0"
edition = "2021"
publish = false

[dependencies]
revm = "*"

[dev-dependencies]
alloy-primitives = "*"
alloy-sol-types = "*"
