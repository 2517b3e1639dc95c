[package]
name = "rgzip"
version = "0.1.0"
edition = "2021"
publish = false

[dependencies]
encoding = "0.2"
getopts = "0.2"
memmap = "0.5"
time = "0.1"
