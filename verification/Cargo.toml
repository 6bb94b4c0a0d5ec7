[package]
name = "pineapple"
version = "0.1.0"
edition = "2021"
publish = false

[dependencies]
indexmap = "1"
structopt = "0.3"
