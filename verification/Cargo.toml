[package]
name = "enver"
version = "0.1.0"
edition = "2021"
publish = false

[dependencies]
clap = "3"
tabwriter = "1"
