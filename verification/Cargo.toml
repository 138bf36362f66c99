[package]
name = "containers"
version = "0.1.0"
edition = "2021"
publish = false

[dependencies]
murmur2 = "=0.1.0"
zerocopy = "=0.8.63"
