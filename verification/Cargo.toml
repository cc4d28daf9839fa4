[package]
name = "ustar_archive"
version = "0.1.0"
edition = "2021"
publish = false

[dependencies]
flate2 = "1"
nix = { version = "*", features = ["fs"] }
