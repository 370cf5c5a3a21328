[package]
name = "yktrace"
version = "0.1.0"
edition = "2021"
publish = false

[dependencies]
byteorder = "1.5.0"
elf = "0.0.12"
