[package]
name = "tin"
version = "0.1.0"
edition = "2021"
publish = false

[dependencies]
unicode-segmentation = "1"
unicode-normalization = "0.1"
unicode-properties = "0.1"
emojis = "0.6"
regex-automata = "0.4"
regex-syntax = "0.8"
rustc-hash = "2"
thiserror = "2"
