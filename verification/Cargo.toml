[package]
name = "zarray"
version = "0.1.0"
edition = "2021"
publish = false

[dependencies]
array-init = "2"

[dev-dependencies]
rand = "0.8"
pathfinding = "3"
