[package]
name = "describe"
version = "0.1.0"
edition = "2021"
publish = false

[dependencies]
clap = "2"
csv = "1"
prettytable-rs = "0.10"
