[package]
name = "flamelens"
version = "0.1.0"
edition = "2021"
publish = false

[dependencies]
regex = "1"
anyhow = "1"
ratatui = "0.29"
