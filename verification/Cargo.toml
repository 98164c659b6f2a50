[package]
name = "minicql"
version = "0.1.0"
edition = "2021"
publish = false

[dependencies]
murmur3 = "0.5"
rand = "0.8"
rustls = "0.21"
rustls-pemfile = "1"
