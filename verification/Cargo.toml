[package]
name = "quark"
version = "0.1.0"
edition = "2021"
publish = false

[dependencies]
x86_64 = { version = "0.14", default-features = false }
libc = "0.2"
nix = { version = "0.26", default-features = false, features = ["mount", "fs"] }
