[package]
name = "chess_engine"
version = "0.1.0"
edition = "2021"
publish = false

[dependencies]
shell-words = "1"
rustyline = "10"
num-format = "0.4"
tabled = "0.10"
crossbeam-channel = "0.5"
