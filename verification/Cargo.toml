[package]
name = "lieval"
version = "0.2.5"
edition = "2021"

[dependencies]
fxhash = "0.2"
