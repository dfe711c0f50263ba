[package]
name = "seq_overlap"
version = "0.1.0"
edition = "2021"
publish = false

[dependencies]
bidir-map = "=1.0.0"
bio = "=4.2.2"
