[package]
name = "portwitch"
version = "0.1.0"
edition = "2021"
publish = false

[dependencies]
itertools = "=0.15.0"
ratatui = "=0.30.2"
