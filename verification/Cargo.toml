[package]
name = "data_structures"
version = "0.1.0"
edition = "2021"

[dependencies]
bit-vec = "=0.10.1"
rand = "=0.10.3"
siphasher = "=1.0.4"
slab = "*"
