[package]
name = "inliner"
version = "0.1.0"
edition = "2021"
publish = false

[dependencies]
base64 = "0.13"
mime_guess = "2"
clap = "2"
