[package]
name = "lud"
version = "0.1.0"
edition = "2021"
publish = false

[dependencies]
byteorder = "1"
clap = "2"
idna = "0.5"
rand = "0.8"
resolv-conf = "0.7"
