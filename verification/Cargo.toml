[package]
name = "walzecore"
version = "0.1.0"
edition = "2021"
publish = false

[dependencies]
caith = "*"
chrono-tz = "*"
