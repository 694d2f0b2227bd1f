[package]
name = "trusty_calculator"
version = "0.1.0"
edition = "2021"
publish = false

[dependencies]
rustc_apfloat = "*"
anyhow = "*"
dirs = "*"
rustyline = "*"
