[package]
name = "built"
version = "0.1.0"
edition = "2021"
publish = false

[dependencies]
cargo-lock = "*"
chrono = "*"
git2 = "*"
semver = "*"

[dev-dependencies]
tempfile = "*"
