[package]
name = "multi_bucket"
version = "0.1.0"
edition = "2021"
publish = false

[dependencies]
hashlink = "*"
