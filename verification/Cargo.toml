[package]
name = "shell"
version = "0.1.0"
edition = "2021"
publish = false

[dependencies]
nix = { version = "0.29", features = ["process", "signal", "term", "fs"] }
libc = "0.2"
