[package]
name = "xcmp_queue"
version = "0.1.0"
edition = "2021"
publish = false

[dependencies]
parity-scale-codec = "3"
blake2 = "0.10"
