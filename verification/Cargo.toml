[package]
name = "roead"
version = "0.1.0"
edition = "2021"
publish = false

[dependencies]
num-integer = "0.1"
thiserror = "1"
