[package]
name = "erofs"
version = "0.1.0"
edition = "2021"
publish = false

[dependencies]
linkme = "=0.3.37"
log = "=0.4.35"
