[package]
name = "merger"
version = "0.1.0"
edition = "2021"
publish = false

[dependencies]
yaml-rust = "=0.4.5"

[dev-dependencies]
merge-yaml-hash = "=0.4.0"
