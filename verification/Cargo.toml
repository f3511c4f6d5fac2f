[package]
name = "tasks"
version = "0.1.0"
edition = "2021"
publish = false

[dependencies]
chrono = "*"
rand = "*"
shellexpand = "*"
clap = { version = "*", features = ["derive"] }
colored = "*"
fuzzy_finder = "*"
serde = { version = "*", features = ["derive"] }
toml = "*"
