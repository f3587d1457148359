[package]
name = "opusify"
version = "0.1.0"
edition = "2021"
publish = false

[dependencies]
anyhow = "*"
bytes = "*"
opusic-sys = "*"
rayon = "*"
rubato = "*"
