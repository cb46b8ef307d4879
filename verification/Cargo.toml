[package]
name = "kodit"
version = "0.1.0"
edition = "2021"
publish = false

[dependencies]
snailquote = "*"
yaml-rust = "*"
clap = { version = "*", features = ["derive"] }
