[package]
name = "hash_collider"
version = "0.1.0"
edition = "2021"
publish = false

[dependencies]
cl3 = "*"
opencl3 = "*"
