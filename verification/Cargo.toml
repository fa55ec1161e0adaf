[package]
name = "cs110l"
version = "0.1.0"
edition = "2021"
publish = false

[dependencies]
rand = "0.7"
nix = "0.17"
rustyline = "6.1"
crossbeam-channel = "0.4"
