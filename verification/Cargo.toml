[package]
name = "nix-freedesktop-icons"
version = "0.1.0"
edition = "2021"
publish = false

[dependencies]
memchr = "2"
btoi = "0.4"
bstr = "1"
memmap2 = "0.9"
once_cell = "1"
tracing = "0.1"
