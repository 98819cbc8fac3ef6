[package]
name = "divsufsort"
version = "0.1.0"
edition = "2021"
publish = false

[dependencies]
num-traits = "0.2"
rayon = "1"
better-panic = "0.3"
cli-table = "=0.3.2"
size_format = "1"
