[package]
name = "poi_store"
version = "0.1.0"
edition = "2021"
publish = false

[dependencies]
flarch = "*"
chrono = "*"
anyhow = "*"
