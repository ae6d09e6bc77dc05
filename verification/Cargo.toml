[package]
name = "code_explorer"
version = "0.1.0"
edition = "2021"
publish = false

[dependencies]
indexmap = { version = "=2.14.2", features = ["serde"] }
sha2 = "=0.10.9"
anyhow = "=1.0.104"
dirs = "=7.0.0"
git2 = "=0.21.0"
ignore = "=0.4.34"
tokei = "=15.0.0"
serde = { version = "=1.0.229", features = ["derive"] }
serde_json = "=1.0.154"
serde_yaml = "=0.9.34"
