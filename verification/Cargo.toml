[package]
name = "copper"
version = "0.1.0"
edition = "2021"
publish = false

[dependencies]
rustc-serialize = "0.3"
rand = "0.3"
mmap = "0.1"
log = "0.3"
