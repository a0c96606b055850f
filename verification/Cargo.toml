[package]
name = "linemerge"
version = "0.1.0"
edition = "2021"
publish = false

[dependencies]
config = { version = "*", default-features = false, features = ["toml"] }
crossterm = { version = "*", default-features = false }
rpassword = "*"
