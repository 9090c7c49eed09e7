[package]
name = "pngopt"
version = "0.1.0"
edition = "2021"
publish = false

[dependencies]
bit-vec = "=0.4.4"
byteorder = "=1.5.0"
crc = "=1.8.1"
itertools = "=0.7.11"
miniz_oxide = "=0.8.9"
