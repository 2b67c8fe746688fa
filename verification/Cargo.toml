[package]
name = "hist"
version = "0.1.0"
edition = "2021"
publish = false

[dependencies]
csv = "1"
lexical-sort = "0.3"
structopt = "0.3"
