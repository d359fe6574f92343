[package]
name = "knights_tour"
version = "0.1.0"
edition = "2021"
publish = false

[dependencies]
rand = "0.8"
regex = "1"
structopt = "0.3"
