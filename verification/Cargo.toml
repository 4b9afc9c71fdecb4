[package]
name = "lsmkv"
version = "0.1.0"
edition = "2021"
publish = false

[dependencies]
bytes = "1"
integer-encoding = "3.0"
rand = "0.7"
