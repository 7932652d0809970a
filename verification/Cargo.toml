[package]
name = "ocron"
version = "0.1.0"
edition = "2021"
publish = false

[dependencies]
chrono = "0.4"
toml = "0.5"
anyhow = "1.0"
