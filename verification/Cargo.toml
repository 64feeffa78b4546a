[package]
name = "libfdisk"
version = "0.1.0"
edition = "2021"
publish = false

[dependencies]
libfdisk-sys = "*"
nix = "0.20"
