[package]
name = "refglue"
version = "0.1.0"
edition = "2021"
publish = false

[dependencies]
atomic = "0.6"
lazy_static = "1"
libc = "0.2"
once_cell = "1"
spin = "0.9"
