[package]
name = "json_pointer"
version = "0.1.0"
edition = "2021"
publish = false

[dependencies]
serde-value = "*"
