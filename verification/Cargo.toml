[package]
name = "find_duplicates"
version = "0.1.0"
edition = "2021"
publish = false

[dependencies]
rust-crypto = "0.2.36"
walkdir = "2"
rayon = "1"
clap = "2"
