[package]
name = "raptor_routing"
version = "0.1.0"
edition = "2021"
publish = false

[dependencies]
chrono = "0.4"
hrdf-parser = "*"
rustc-hash = "2"
