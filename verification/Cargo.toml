[package]
name = "xi_correlation"
version = "0.1.0"
edition = "2021"
publish = false

[dependencies]
itertools = "0.10"
ordered-float = "2"
rand = "0.8"
textplots = { version = "0.8", default-features = false }
