[package]
name = "derivre"
version = "0.3.8"
edition = "2021"
publish = false

[dependencies]
anyhow = "1"
regex-syntax = "0.8"
