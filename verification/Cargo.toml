[package]
name = "cargo_ci"
version = "0.1.0"
edition = "2021"
publish = false

[dependencies]
anyhow = "1"
cargo_metadata = "*"
chrono = "0.4"
clap = { version = "4", features = ["derive"] }
console = "*"
evalexpr = "11"
home = "0.5"
rayon = "1"
semver = { version = "1", features = ["serde"] }
serde = { version = "1", features = ["derive"] }
serde_json = "1"
serde_yaml = "0.9"
toml = "*"
