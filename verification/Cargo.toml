[package]
name = "huffcode"
version = "0.1.0"
edition = "2021"
publish = false

[dependencies]
bitvec = "*"
