[package]
name = "zsync_core"
version = "0.1.0"
edition = "2021"
publish = false

[dependencies]
md4 = "0.10"
chrono = "0.4"
