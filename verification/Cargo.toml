[package]
name = "dnd_calc"
version = "0.1.0"
edition = "2021"
publish = false

[dependencies]
pad = "0.1"

[dev-dependencies]
regex = "1"
