[package]
name = "pob_optimizer"
version = "0.1.0"
edition = "2021"

[dependencies]
rustc-hash = "2"
libloading = "0.8"
