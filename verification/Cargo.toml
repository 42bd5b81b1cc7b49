[package]
name = "grader"
version = "0.1.0"
edition = "2021"
publish = false

[dependencies]
anyhow = "1"
clap = { version = "4", features = ["derive"] }
crossterm = "*"
owo-colors = "4"
serde = { version = "1", features = ["derive"] }
toml = "*"
ureq = { version = "3", features = ["json"] }
