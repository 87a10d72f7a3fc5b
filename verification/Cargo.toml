[package]
name = "bsp"
version = "0.1.0"
edition = "2021"
publish = false

[dependencies]
clap = "2"
encoding_rs = "0.8"
glob = "0.3"
