[package]
name = "lita_tokenizers"
version = "0.1.0"
edition = "2021"
publish = false

[dependencies]
memchr = "2"
unicode-normalization = "0.1"
encoding_rs = "0.8"
unicode-bom = "2"
simdutf8 = "0.1"
escaped-delimiter = "*"
clap = { version = "4", features = ["derive"] }
anyhow = "1"
