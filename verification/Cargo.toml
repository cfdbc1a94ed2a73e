[package]
name = "xwords"
version = "0.1.0"
edition = "2021"
publish = false

[dependencies]
rustc-hash = "*"
clap = "*"
crossbeam = "*"
