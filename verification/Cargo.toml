[package]
name = "tiny_symbolic"
version = "0.3.1"
edition = "2021"
publish = false

[dependencies]
num = "=0.4.3"
num-integer = "=0.1.47"
fmtastic = "=0.2.2"
itertools = "=0.15.0"
