[package]
name = "lzjd"
version = "0.1.0"
edition = "2021"
publish = false

[dependencies]
base64 = "*"
crc = "*"
fasthash = "*"
clap = "*"
num_cpus = "*"
rayon = "*"
walkdir = "*"
