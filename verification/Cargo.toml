[package]
name = "icfl_toolkit"
version = "0.1.0"
edition = "2021"
publish = false

[dependencies]
num = "0.4"
argh = "0.1"
oxhttp = "*"
text_io = "*"
