[package]
name = "freqangel"
version = "0.1.0"
edition = "2021"
publish = false

[dependencies]
isahc = "1"
regex = "1"
