[package]
name = "snarkvm_core"
version = "0.1.0"
edition = "2021"
publish = false

[dependencies]
blake2 = "*"
once_cell = "*"
rand = "*"
