[package]
name = "rmstuff"
version = "1.0.0"
edition = "2021"
publish = false

[dependencies]
async-std = "1"
futures = "0.3"
structopt = "0.3"
