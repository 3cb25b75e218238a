[package]
name = "cicada"
version = "0.1.0"
edition = "2021"
publish = false

[dependencies]
glob = "*"
libc = "*"
errno = "*"
linefeed = "*"
yaml-rust = "*"

[dev-dependencies]
tempfile = "*"
