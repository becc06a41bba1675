[package]
name = "nxml"
version = "0.1.0"
edition = "2021"
publish = false

[dependencies]
bstr = "*"
clap = { version = "*", features = ["derive"] }
half = "*"
ordered-float = "*"
