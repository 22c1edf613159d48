[package]
name = "close_enough"
version = "0.1.0"
edition = "2021"
publish = false

[dependencies]
clap = "2"
ignore = "0.4"
structopt = "0.3"
