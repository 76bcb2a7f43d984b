[package]
name = "bittorrent"
version = "0.1.0"
edition = "2021"
publish = false

[dependencies]
rand = "=0.10.3"
time = "=0.3.55"
url = "=1.7.2"
rust-crypto = "=0.2.36"
