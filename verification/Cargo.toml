[package]
name = "rollup_node"
version = "0.1.0"
edition = "2021"
publish = false

[dependencies]
sled = "*"
rs_merkle = "*"
hex = "*"
