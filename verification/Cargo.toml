[package]
name = "thrill_digger"
version = "0.1.0"
edition = "2021"
publish = false

[dependencies]
ansi_term = "0.12"
combinations = "0.1"
rayon = "1"
