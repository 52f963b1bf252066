[package]
name = "cfgrammar"
version = "0.1.0"
edition = "2021"
publish = false

[dependencies]
lazy_static = "1"
num-traits = "0.2"
regex = "1"
try_from = "0.3"
typename = "0.1"
