[package]
name = "venom_db"
version = "0.6.0"
edition = "2021"
publish = false

[dependencies]
crc32fast = "1"
rand = "0.8"
