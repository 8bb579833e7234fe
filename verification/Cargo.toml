[package]
name = "oxideav-vp8"
version = "0.2.0"
edition = "2021"
publish = false

[dependencies]
oxideav-core = "*"
oxideav-container = "*"
