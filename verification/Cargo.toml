[package]
name = "ignore-rm"
version = "0.1.0"
edition = "2021"
publish = false

[dependencies]
dialoguer = { version = "0.11", features = ["fuzzy-select"] }
git2 = { version = "0.20", default-features = false }
thiserror = "2"

[dev-dependencies]
tempfile = "3"
