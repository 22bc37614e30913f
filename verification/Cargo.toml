[package]
name = "markview"
version = "0.1.0"
edition = "2021"
publish = false

[dependencies]
pulldown-cmark = "=0.12.2"
notify = "*"
