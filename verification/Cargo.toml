[package]
name = "libmep"
version = "0.1.0"
edition = "2021"
publish = false

[dependencies]
colog = "*"
crossterm = "*"
glob = "*"
libloading = "*"
log = "*"
