[package]
name = "kernel_loader_tables"
version = "0.1.0"
edition = "2021"
publish = false

[dependencies]
embedded-hal-nb = "=1.0.0"
spin = { version = "=0.9.9", features = ["lock_api"] }
