[package]
name = "lualex"
version = "0.1.0"
edition = "2021"
publish = false

[dependencies]
hexf-parse = "0.2"
