[package]
name = "blockstore"
version = "0.1.0"
edition = "2021"
publish = false

[dependencies]
byteorder = "1"
lru = "0.12"
primes = "*"
rand = "0.8"
clap = { version = "4", features = ["derive"] }
colored = "2"
