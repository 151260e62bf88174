[package]
name = "sunrise"
version = "0.1.0"
edition = "2021"
publish = false

[dependencies]
ansi_term = "0.12"
clap = "2"
ignore = "*"
pathdiff = "*"
read_input = "*"
