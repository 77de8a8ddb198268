[package]
name = "kybe_rs"
version = "0.1.0"
edition = "2021"

[dependencies]
rand = "0.8"
sha3 = "0.10"
