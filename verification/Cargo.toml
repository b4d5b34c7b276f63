[package]
name = "sv_order"
version = "0.1.0"
edition = "2021"
publish = false

[dependencies]
anyhow = "1"
clap = "3"
rayon = "1"
sv-parser = "*"
