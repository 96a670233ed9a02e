[package]
name = "contest_solvers"
version = "0.1.0"
edition = "2021"
publish = false

[dependencies]
serde_json = "1"
rust-crypto = "0.2"
