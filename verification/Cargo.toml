[package]
name = "go_engine"
version = "0.1.0"
edition = "2021"
publish = false

[dependencies]
bitvector = "*"
rand = "0.8"
rand_pcg = "0.3"
