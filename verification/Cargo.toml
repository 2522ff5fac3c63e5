[package]
name = "specter_probe"
version = "0.1.0"
edition = "2021"
publish = false

[dependencies]
device_tree_parser = "*"
anyhow = "*"
clap = { version = "*", features = ["derive"] }
serde = { version = "*", features = ["derive"] }
serde_json = "*"
tracing = "*"
tracing-subscriber = { version = "*", features = ["env-filter"] }
