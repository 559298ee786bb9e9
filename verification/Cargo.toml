[package]
name = "esprit2"
version = "0.1.0"
edition = "2021"
publish = false

[dependencies]
aho-corasick = "1"
url = "2"
percent-encoding = "2"
rand = "0.8"
