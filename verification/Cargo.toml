[package]
name = "refer"
version = "0.1.0"
edition = "2021"
publish = false

[dependencies]
radix-heap = "*"
bitvec = "*"
parking_lot = "*"
log = "*"
