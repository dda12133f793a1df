[package]
name = "dmds"
version = "0.1.0"
edition = "2021"
publish = false

[dependencies]
bytes = "1"
futures-lite = "2"
pin-project-lite = "0.2"
thiserror = "1"
