[package]
name = "originscan"
version = "0.1.0"
edition = "2021"
publish = false

[dependencies]
base64 = "0.13"
sled = "0.34"
encoding_rs = "0.8"
encoding_rs_io = "0.1"
walkdir = "2"

[dev-dependencies]
regex = "1"
