[package]
name = "words"
version = "0.1.0"
edition = "2021"
publish = false

[dependencies]
astar = "=0.1.2"
edit-distance = "=2.2.2"
simple_parallel = "=0.2.1"
