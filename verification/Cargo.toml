[package]
name = "archie"
version = "0.1.0"
edition = "2021"
publish = false

[dependencies]
anyhow = "*"
clap = { version = "*", features = ["derive"] }
directories = "*"
serde = { version = "*", features = ["derive"] }
serde_yaml = "*"
