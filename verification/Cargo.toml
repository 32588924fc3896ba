[package]
name = "pagedb"
version = "0.1.0"
edition = "2021"
publish = false

[dependencies]
sha3 = "0.10"
fs2 = "*"
memmap2 = "*"
page_size = "*"
parking_lot = "*"
