[package]
name = "hashcarve"
version = "0.1.0"
edition = "2021"
publish = false

[dependencies]
getopts = "0.2"
hex = "0.4"
md5 = "0.7"
memmem = "0.1"
