[package]
name = "envch"
version = "0.1.0"
edition = "2021"
publish = false

[dependencies]
dirs = "=6.0.0"
shellexpand = "=3.1.2"
structopt = "=0.3.26"
termion = "=4.0.6"
