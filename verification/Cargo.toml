[package]
name = "logselect"
version = "0.1.0"
edition = "2021"
publish = false

[dependencies]
regex = "*"
fixedbitset = "*"
getopts = "*"
toml = "*"
libc = "*"
