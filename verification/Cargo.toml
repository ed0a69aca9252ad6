[package]
name = "simple_file_server"
version = "0.1.0"
edition = "2021"
publish = false

[dependencies]
infer = { version = "=0.22.0", default-features = false }
