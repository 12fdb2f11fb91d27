[package]
name = "dep_index"
version = "0.1.0"
edition = "2021"
publish = false

[dependencies]
anyhow = "*"
anstream = "*"
owo-colors = "*"
itertools = "*"
fs-err = "*"
rustc-hash = "*"
