[package]
name = "mv_nix"
version = "0.1.0"
edition = "2021"
publish = false

[dependencies]
rnix = "*"
clap = { version = "*", features = ["derive"] }
walkdir = "*"
git2 = "*"
