[package]
name = "bf_run"
version = "0.1.0"
edition = "2021"

[dependencies]
itertools = "*"
