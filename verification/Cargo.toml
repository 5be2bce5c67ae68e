[package]
name = "auto_import"
version = "0.1.0"
edition = "2021"
publish = false

[dependencies]
json = "0.12"
lazy_static = "1"
rand = "0.8"
