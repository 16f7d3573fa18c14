[package]
name = "piece_exchange"
version = "0.1.0"
edition = "2021"
publish = false

[dependencies]
bsdiff = "*"
lz4 = "*"
rand = "*"
reed-solomon-erasure = "*"
sha2 = "*"
