[package]
name = "rustfst"
version = "0.1.0"
edition = "2021"
publish = false

[dependencies]
anyhow = "1"
ffi-convert = "0.6"
libc = "0.2"
tempfile = "3"
