[package]
name = "searchthing"
version = "0.1.0"
edition = "2021"
publish = false

[dependencies]
fuzzy-matcher = "*"
libloading = "*"
walkdir = "*"
