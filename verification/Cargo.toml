[package]
name = "hifiasm2txt"
version = "0.1.0"
edition = "2021"
publish = false

[dependencies]
clap = "*"
ctor = "0.2"
gzp = { version = "*", default-features = false, features = ["deflate_rust"] }
lazy_static = "*"
libc = "*"
libc-stdhandle = "*"
path-absolutize = "*"
