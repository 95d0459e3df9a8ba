[package]
name = "gitstore"
version = "0.1.0"
edition = "2021"
publish = false

[dependencies]
anyhow = "*"
flate2 = "*"
hex = "*"
sha1 = "*"
