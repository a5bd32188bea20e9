[package]
name = "split_puzzle"
version = "0.1.0"
edition = "2021"
publish = false

[dependencies]
index_vec = "0.1"
itertools = "0.10"
