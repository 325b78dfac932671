[package]
name = "tokenizers"
version = "0.1.0"
edition = "2021"
publish = false

[dependencies]
indicatif = "0.13"
rayon = "1.2"
regex = "1.3"
regex-syntax = "0.6"
