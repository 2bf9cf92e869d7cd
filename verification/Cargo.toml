[package]
name = "pubgrub_crates_benchmark"
version = "0.1.0"
edition = "2021"
publish = false

[dependencies]
crates-index = { version = "=3.14.2", features = ["git", "parallel"] }
csv = "=1.4.0"
indicatif = { version = "=0.17.11", features = ["rayon"] }
internment = { version = "=0.8.6", features = ["arc", "serde"] }
pubgrub = "=0.3.0"
rayon = "1"
ron = "=0.8.1"
semver = { version = "=1.0.28", features = ["serde"] }
serde = { version = "1", features = ["derive", "rc"] }
