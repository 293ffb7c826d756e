[package]
name = "gleam_typ"
version = "0.1.0"
edition = "2021"

[dependencies]
im = "*"
itertools = "*"
