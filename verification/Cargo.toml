[package]
name = "alf"
version = "0.1.0"
edition = "2021"
publish = false

[dependencies]
memchr = "2"
atty = "0.2"
structopt = "0.3"
