[package]
name = "seg_lib"
version = "0.1.0"
edition = "2021"
publish = false

[dependencies]
num-integer = "0.1"
num-traits = "0.2"

[dev-dependencies]
rand = "0.9"
